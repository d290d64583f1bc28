//! The dictionary: a set of words, held in a prefix tree.
//!
//! The tree is keyed by bytes, so the model of a dictionary is the set of
//! the byte strings of its words. A query with a `&str` asks for the bytes
//! of its UTF-8 encoding.
//!
//! A dictionary can be written out as bytes and read back, so that a caller
//! can keep it in a file beside the word list that it was made from.
//! [`choose_source`] says which of the two files to read.

use bincode::ErrorKind;
use pfx::PrefixTreeSet;
use vstd::prelude::*;
use vstd::string::StringSliceAdditionalSpecFns;
use vstd::utf8::encode_utf8;

verus! {

#[verifier::external_type_specification]
#[verifier::external_body]
#[verifier::reject_recursive_types(T)]
pub struct ExPrefixTreeSet<T>(PrefixTreeSet<T>);

#[verifier::external_type_specification]
#[verifier::external_body]
pub struct ExErrorKind(ErrorKind);

/// The keys that a prefix tree holds, each as its bytes.
pub uninterp spec fn tree_keys(tree: PrefixTreeSet<String>) -> Set<Seq<u8>>;

/// The bytes that a tree with the given keys is written out as, if the
/// encoder can write it out.
pub uninterp spec fn encoding(keys: Set<Seq<u8>>) -> Option<Seq<u8>>;

/// The keys of the tree that the given bytes are read back as, if they can
/// be read back.
pub uninterp spec fn decoding(bytes: Seq<u8>) -> Option<Set<Seq<u8>>>;

/// Whether some word of `words` starts with `prefix`.
pub open spec fn has_prefix(words: Set<Seq<u8>>, prefix: Seq<u8>) -> bool {
    exists|word: Seq<u8>| #[trigger] words.contains(word) && prefix.is_prefix_of(word)
}

/// `PrefixTreeSet::new`: a tree without keys.
#[verifier::external_body]
fn tree_new() -> (tree: PrefixTreeSet<String>)
    ensures
        tree_keys(tree) == Set::<Seq<u8>>::empty(),
{
    PrefixTreeSet::new()
}

/// `PrefixTreeSet::is_empty`: whether the tree holds no key.
#[verifier::external_body]
fn tree_is_empty(tree: &PrefixTreeSet<String>) -> (r: bool)
    ensures
        r == tree_keys(*tree).is_empty(),
{
    tree.is_empty()
}

/// `PrefixTreeSet::contains`: whether the bytes are a key of the tree.
#[verifier::external_body]
fn tree_contains(tree: &PrefixTreeSet<String>, item: &[u8]) -> (r: bool)
    ensures
        r == tree_keys(*tree).contains(item@),
{
    tree.contains(item)
}

/// `PrefixTreeSet::contains_prefix`: whether some key of the tree starts
/// with the bytes.
#[verifier::external_body]
fn tree_contains_prefix(tree: &PrefixTreeSet<String>, key: &[u8]) -> (r: bool)
    ensures
        r == has_prefix(tree_keys(*tree), key@),
{
    tree.contains_prefix(key)
}

/// `PrefixTreeSet::insert`: the bytes of the string become a key of the
/// tree; the result says whether they were none before.
#[verifier::external_body]
fn tree_insert(tree: &mut PrefixTreeSet<String>, key: String) -> (r: bool)
    ensures
        tree_keys(*final(tree)) == tree_keys(*old(tree)).insert(encode_utf8(key@)),
        r == !tree_keys(*old(tree)).contains(encode_utf8(key@)),
{
    tree.insert(key)
}

/// `PrefixTreeSet::clone`: a tree with the same keys.
#[verifier::external_body]
fn tree_clone(tree: &PrefixTreeSet<String>) -> (r: PrefixTreeSet<String>)
    ensures
        tree_keys(r) == tree_keys(*tree),
{
    tree.clone()
}

/// `bincode::serialize`, on a tree: the keys in rising order, as a length
/// and then each key with its own length. Whether the encoder succeeds, and
/// with which bytes, depends on the keys alone, and `bincode::deserialize`
/// reads the bytes back as a tree with the same keys.
#[verifier::external_body]
fn tree_serialize(tree: &PrefixTreeSet<String>) -> (r: Result<Vec<u8>, Box<ErrorKind>>)
    ensures
        match r {
            Ok(bytes) => encoding(tree_keys(*tree)) == Some(bytes@) && decoding(bytes@) == Some(
                tree_keys(*tree),
            ),
            Err(_) => encoding(tree_keys(*tree)) is None,
        },
{
    bincode::serialize(tree)
}

/// `bincode::deserialize`, to a tree: the tree that the bytes are read
/// back as, or an error where they cannot be.
#[verifier::external_body]
fn tree_deserialize(bytes: &[u8]) -> (r: Result<PrefixTreeSet<String>, Box<ErrorKind>>)
    ensures
        match r {
            Ok(tree) => decoding(bytes@) == Some(tree_keys(tree)),
            Err(_) => decoding(bytes@) is None,
        },
{
    bincode::deserialize(bytes)
}

/// Why bytes could not be turned into a dictionary, or a dictionary into
/// bytes.
#[derive(Clone, Copy, Debug, PartialEq, Eq)]
pub enum DictionaryError {
    /// The bytes are not those of a dictionary.
    InvalidData,
}

/// Which of its two files a dictionary is read from.
#[derive(Clone, Copy, Debug, PartialEq, Eq)]
pub enum Source {
    /// The binary file that an earlier run wrote.
    Binary,
    /// The list of words, one on each line.
    Text,
}

/// Which file to read, given when each was last modified, if that could be
/// found out: the binary file only where it is the newer of the two.
pub fn choose_source(binary_modified: Option<u128>, text_modified: Option<u128>) -> (r: Source)
    ensures
        r == Source::Binary <==> (binary_modified is Some && text_modified is Some
            && binary_modified->Some_0 > text_modified->Some_0),
{
    match (binary_modified, text_modified) {
        (Some(binary), Some(text)) => if binary > text {
            Source::Binary
        } else {
            Source::Text
        },
        _ => Source::Text,
    }
}

/// A set of words that answers whether a string is one of them, and
/// whether one of them starts with it.
#[derive(Debug, PartialEq, Eq)]
pub struct Dictionary {
    tree: PrefixTreeSet<String>,
}

impl View for Dictionary {
    type V = Set<Seq<u8>>;

    closed spec fn view(&self) -> Set<Seq<u8>> {
        tree_keys(self.tree)
    }
}

impl Clone for Dictionary {
    /// A dictionary with the same words.
    fn clone(&self) -> (r: Dictionary)
        ensures
            r@ == self@,
    {
        Dictionary { tree: tree_clone(&self.tree) }
    }
}

impl Default for Dictionary {
    /// The dictionary without words.
    fn default() -> (r: Dictionary)
        ensures
            r@ == Set::<Seq<u8>>::empty(),
    {
        Dictionary::new()
    }
}

impl Dictionary {
    /// The dictionary without words.
    pub fn new() -> (r: Dictionary)
        ensures
            r@ == Set::<Seq<u8>>::empty(),
    {
        Dictionary { tree: tree_new() }
    }

    /// Whether the dictionary holds no word.
    pub fn is_empty(&self) -> (r: bool)
        ensures
            r == self@.is_empty(),
    {
        tree_is_empty(&self.tree)
    }

    /// Whether `word` is in the dictionary.
    pub fn contains(&self, word: &str) -> (r: bool)
        ensures
            r == self@.contains(word.spec_bytes()),
    {
        tree_contains(&self.tree, word.as_bytes())
    }

    /// Whether some word of the dictionary starts with `prefix`; a word
    /// starts with itself.
    pub fn contains_prefix(&self, prefix: &str) -> (r: bool)
        ensures
            r == has_prefix(self@, prefix.spec_bytes()),
    {
        tree_contains_prefix(&self.tree, prefix.as_bytes())
    }

    /// Whether the bytes are those of a word of the dictionary.
    pub fn contains_bytes(&self, word: &[u8]) -> (r: bool)
        ensures
            r == self@.contains(word@),
    {
        tree_contains(&self.tree, word)
    }

    /// Whether the bytes of some word of the dictionary start with
    /// `prefix`.
    pub fn contains_prefix_bytes(&self, prefix: &[u8]) -> (r: bool)
        ensures
            r == has_prefix(self@, prefix@),
    {
        tree_contains_prefix(&self.tree, prefix)
    }

    /// Adds each of `words` to the dictionary. A word that is there already
    /// changes nothing.
    pub fn populate(&mut self, words: &[&str])
        ensures
            forall|word: Seq<u8>|
                final(self)@.contains(word) <==> old(self)@.contains(word) || exists|i: int|
                    0 <= i < words@.len() && word == (#[trigger] words@[i]).spec_bytes(),
    {
        let mut i: usize = 0;
        while i < words.len()
            invariant
                i <= words@.len(),
                forall|word: Seq<u8>|
                    self@.contains(word) <==> old(self)@.contains(word) || exists|k: int|
                        0 <= k < i && word == (#[trigger] words@[k]).spec_bytes(),
            decreases words@.len() - i,
        {
            let ghost before = self@;
            let word: &str = words[i];
            let key = word.to_owned();
            tree_insert(&mut self.tree, key);
            proof {
                assert(self@ == before.insert(word.spec_bytes()));
                assert forall|w: Seq<u8>|
                    self@.contains(w) <==> old(self)@.contains(w) || exists|k: int|
                        0 <= k < i + 1 && w == (#[trigger] words@[k]).spec_bytes() by {
                    if w == word.spec_bytes() {
                        assert(words@[i as int].spec_bytes() == w);
                    }
                }
            }
            i += 1;
        }
    }

    /// The bytes that the dictionary is kept as in its binary file: the
    /// encoding of its words.
    ///
    /// Fails with [`DictionaryError::InvalidData`] where the words have no
    /// encoding.
    pub fn serialize(&self) -> (r: Result<Vec<u8>, DictionaryError>)
        ensures
            serialized(
                self@,
                match r {
                    Ok(bytes) => Ok(bytes@),
                    Err(e) => Err(e),
                },
            ),
    {
        Self::written(tree_serialize(&self.tree))
    }

    /// What [`Dictionary::serialize`] makes of the encoder's answer: its
    /// bytes, or [`DictionaryError::InvalidData`] for its error.
    pub fn written(outcome: Result<Vec<u8>, Box<ErrorKind>>) -> (r: Result<
        Vec<u8>,
        DictionaryError,
    >)
        ensures
            match outcome {
                Ok(bytes) => r == Ok::<Vec<u8>, DictionaryError>(bytes),
                Err(_) => r == Err::<Vec<u8>, DictionaryError>(DictionaryError::InvalidData),
            },
    {
        match outcome {
            Ok(bytes) => Ok(bytes),
            Err(_) => Err(DictionaryError::InvalidData),
        }
    }

    /// The dictionary that the content of a binary file holds.
    ///
    /// Fails with [`DictionaryError::InvalidData`] where the content is not
    /// that of a dictionary.
    pub fn deserialize(content: &[u8]) -> (r: Result<Dictionary, DictionaryError>)
        ensures
            deserialized(
                content@,
                match r {
                    Ok(dictionary) => Ok(dictionary@),
                    Err(e) => Err(e),
                },
            ),
    {
        Self::read(tree_deserialize(content))
    }

    /// What [`Dictionary::deserialize`] makes of the decoder's answer: a
    /// dictionary with the keys of its tree, or
    /// [`DictionaryError::InvalidData`] for its error.
    pub fn read(outcome: Result<PrefixTreeSet<String>, Box<ErrorKind>>) -> (r: Result<
        Dictionary,
        DictionaryError,
    >)
        ensures
            match outcome {
                Ok(tree) => r matches Ok(dictionary) && dictionary@ == tree_keys(tree),
                Err(_) => r == Err::<Dictionary, DictionaryError>(DictionaryError::InvalidData),
            },
    {
        match outcome {
            Ok(tree) => Ok(Dictionary { tree }),
            Err(_) => Err(DictionaryError::InvalidData),
        }
    }
}

/// What [`Dictionary::serialize`] returns for a dictionary that holds
/// `words`: their encoding, which can be read back as them, or an error
/// where they have none.
pub open spec fn serialized(words: Set<Seq<u8>>, r: Result<Seq<u8>, DictionaryError>) -> bool {
    match r {
        Ok(bytes) => encoding(words) == Some(bytes) && decoding(bytes) == Some(words),
        Err(e) => e == DictionaryError::InvalidData && encoding(words) is None,
    }
}

/// What [`Dictionary::deserialize`] returns for `content`: the words that
/// the content holds, or an error where it holds none.
pub open spec fn deserialized(content: Seq<u8>, r: Result<Set<Seq<u8>>, DictionaryError>) -> bool {
    match r {
        Ok(words) => decoding(content) == Some(words),
        Err(e) => e == DictionaryError::InvalidData && decoding(content) is None,
    }
}

/// A dictionary that was written out and read back holds the same words.
pub proof fn lemma_round_trip(
    words: Set<Seq<u8>>,
    bytes: Seq<u8>,
    back: Result<Set<Seq<u8>>, DictionaryError>,
)
    requires
        serialized(words, Ok(bytes)),
        deserialized(bytes, back),
    ensures
        back == Ok::<Set<Seq<u8>>, DictionaryError>(words),
{
}

} // verus!
