//! The dictionary the search consults: a trie of byte strings from the
//! `trie_rs` crate, always built by its `TrieBuilder` from a word list. A word
//! list can be kept in `postcard` form.
use vstd::prelude::*;
use trie_rs::{Trie, TrieBuilder};
use vstd::utf8::{encode_utf8, is_ascii_chars, is_ascii_chars_encode_utf8};

verus! {

#[verifier::external_type_specification]
#[verifier::external_body]
#[verifier::reject_recursive_types(Label)]
pub struct ExTrie<Label>(trie_rs::Trie<Label>);

#[verifier::external_type_specification]
#[verifier::external_body]
#[verifier::reject_recursive_types(Label)]
pub struct ExTrieBuilder<Label>(trie_rs::TrieBuilder<Label>);

#[verifier::external_type_specification]
#[verifier::external_body]
pub struct ExPostcardError(postcard::Error);

/// The words a trie holds, as byte strings: those for which its
/// `exact_match` lookup reports a match.
pub uninterp spec fn trie_words(t: Trie<u8>) -> Set<Seq<u8>>;

/// The words pushed so far into a trie builder.
pub uninterp spec fn builder_words(b: TrieBuilder<u8>) -> Set<Seq<u8>>;

/// The word list that `postcard` decodes from `bytes`, or `None` where it
/// refuses them.
pub uninterp spec fn decoded_word_list(bytes: Seq<u8>) -> Option<Seq<Seq<char>>>;

/// The `postcard` encoding of a word list.
pub uninterp spec fn encoded_word_list(words: Seq<Seq<char>>) -> Seq<u8>;

/// Whether the non-empty byte string `w` is a word of `dict`.
pub open spec fn in_dictionary(dict: Set<Seq<u8>>, w: Seq<u8>) -> bool {
    w.len() > 0 && dict.contains(w)
}

/// A byte raised to its capital where it is a lower-case ASCII letter.
pub open spec fn upper(b: u8) -> u8 {
    if 97 <= b <= 122 {
        (b - 32) as u8
    } else {
        b
    }
}

/// Whether a byte is a capital ASCII letter.
pub open spec fn is_capital(b: u8) -> bool {
    65 <= b <= 90
}

/// The capital letters of `bytes`, in order, after lower-case ASCII letters
/// have been raised; everything else is dropped.
pub open spec fn capitals(bytes: Seq<u8>) -> Seq<u8>
    decreases bytes.len(),
{
    if bytes.len() == 0 {
        seq![]
    } else if is_capital(upper(bytes.last())) {
        capitals(bytes.drop_last()).push(upper(bytes.last()))
    } else {
        capitals(bytes.drop_last())
    }
}

/// The dictionary entry a raw word gives: its capitals, where there are at
/// least three of them.
pub open spec fn entry_of(raw: Seq<char>) -> Option<Seq<u8>> {
    let c = capitals(encode_utf8(raw));
    if c.len() >= 3 {
        Some(c)
    } else {
        None
    }
}

/// Raising maps the lower-case ASCII letters a..z one to one onto the
/// capitals A..Z, leaves the capitals as they are, and no other byte becomes a
/// capital.
pub proof fn lemma_raising(b: u8)
    ensures
        97 <= b <= 122 ==> upper(b) == b - 32 && is_capital(upper(b)),
        65 <= b <= 90 ==> upper(b) == b && is_capital(upper(b)),
        !(97 <= b <= 122) && !(65 <= b <= 90) ==> !is_capital(upper(b)),
{
}

/// The capitals of a byte string made only of ASCII letters are all its
/// letters, in order, lower-case ones raised.
proof fn lemma_capitals_of_letters(bytes: Seq<u8>)
    requires
        forall|i: int| 0 <= i < bytes.len() ==> (97 <= #[trigger] bytes[i] <= 122 || 65 <= bytes[i] <= 90),
    ensures
        capitals(bytes) == Seq::new(bytes.len(), |i: int| if bytes[i] >= 97 { (bytes[i] - 32) as u8 } else { bytes[i] }),
    decreases bytes.len(),
{
    if bytes.len() > 0 {
        let init = bytes.drop_last();
        assert forall|i: int| 0 <= i < init.len() implies (97 <= #[trigger] init[i] <= 122 || 65 <= init[i] <= 90) by {
            assert(init[i] == bytes[i]);
        }
        lemma_capitals_of_letters(init);
        assert(capitals(bytes) =~= Seq::new(bytes.len(), |i: int| if bytes[i] >= 97 { (bytes[i] - 32) as u8 } else { bytes[i] }));
    }
}

/// A word made only of ASCII letters, at least three of them, gives as entry
/// exactly that word in capitals.
pub proof fn lemma_entry_of_letters(raw: Seq<char>)
    requires
        raw.len() >= 3,
        forall|i: int| 0 <= i < raw.len() ==> ('a' <= #[trigger] raw[i] <= 'z' || 'A' <= raw[i] <= 'Z'),
    ensures
        entry_of(raw) == Some(Seq::new(raw.len(), |i: int| if 'a' <= raw[i] <= 'z' { (raw[i] as u8 - 32) as u8 } else { raw[i] as u8 })),
{
    assert(is_ascii_chars(raw));
    is_ascii_chars_encode_utf8(raw);
    let bytes = encode_utf8(raw);
    assert forall|i: int| 0 <= i < bytes.len() implies (97 <= #[trigger] bytes[i] <= 122 || 65 <= bytes[i] <= 90) by {
        assert(bytes[i] == raw[i] as u8);
    }
    lemma_capitals_of_letters(bytes);
    assert(capitals(bytes) =~= Seq::new(raw.len(), |i: int| if 'a' <= raw[i] <= 'z' { (raw[i] as u8 - 32) as u8 } else { raw[i] as u8 }));
}

/// The entries the words of a list give.
pub open spec fn entries(words: Seq<Seq<char>>) -> Set<Seq<u8>> {
    Set::new(|w: Seq<u8>| exists|i: int| 0 <= i < words.len() && entry_of(#[trigger] words[i]) == Some(w))
}

/// The texts of a list of strings.
pub open spec fn texts(words: Seq<String>) -> Seq<Seq<char>> {
    words.map_values(|s: String| s@)
}

/// Calls `trie_rs::TrieBuilder::new`. Claimed: the builder holds no word.
#[verifier::external_body]
fn builder_new() -> (b: TrieBuilder<u8>)
    ensures
        builder_words(b) == Set::<Seq<u8>>::empty(),
{
    TrieBuilder::new()
}

/// Calls `trie_rs::TrieBuilder::push`. Claimed: the word is added. The
/// builder panics on an empty word, which is left out.
#[verifier::external_body]
fn builder_push(b: &mut TrieBuilder<u8>, word: &Vec<u8>)
    requires
        word@.len() > 0,
    ensures
        builder_words(*final(b)) == builder_words(*old(b)).insert(word@),
{
    b.push(word)
}

/// Calls `trie_rs::TrieBuilder::build`. Claimed: the trie's words are the
/// ones pushed into the builder.
#[verifier::external_body]
fn builder_build(b: TrieBuilder<u8>) -> (t: Trie<u8>)
    ensures
        trie_words(t) == builder_words(b),
{
    b.build()
}

/// Calls `postcard::from_bytes` to decode a word list. Claimed: the decoded
/// list is the one named for `bytes`, and a refusal happens exactly where that
/// name is `None`.
#[verifier::external_body]
fn postcard_word_list(bytes: &[u8]) -> (r: Result<Vec<String>, postcard::Error>)
    ensures
        match r {
            Ok(v) => decoded_word_list(bytes@) == Some(texts(v@)),
            Err(_) => decoded_word_list(bytes@) is None,
        },
{
    postcard::from_bytes(bytes)
}

/// Calls `postcard::to_allocvec` to encode a word list. Claimed: the call
/// succeeds (the growing vector it writes into never refuses bytes, and a
/// `Vec` always announces its length), the bytes are the ones named for the
/// list, and `postcard::from_bytes` decodes them back to the same list (a
/// count, then each string's length and bytes, read back the same way).
#[verifier::external_body]
fn postcard_encode_words(words: &Vec<String>) -> (r: Result<Vec<u8>, postcard::Error>)
    ensures
        match r {
            Ok(v) => encoded_word_list(texts(words@)) == v@ && decoded_word_list(v@) == Some(texts(words@)),
            Err(_) => false,
        },
{
    postcard::to_allocvec(words)
}

/// The dictionary entry `raw` gives: its capital letters, lower-case ASCII
/// letters raised first and everything else dropped, where there are at least
/// three of them.
pub fn normalize_word(raw: &str) -> (r: Option<Vec<u8>>)
    ensures
        match r {
            Some(w) => entry_of(raw@) == Some(w@),
            None => entry_of(raw@) is None,
        },
{
    let bytes = raw.as_bytes();
    let mut word: Vec<u8> = Vec::new();
    let mut i: usize = 0;
    while i < bytes.len()
        invariant
            i <= bytes@.len(),
            bytes@ == encode_utf8(raw@),
            word@ == capitals(bytes@.subrange(0, i as int)),
        decreases bytes@.len() - i,
    {
        let b = bytes[i];
        let c = if 97 <= b && b <= 122 { b - 32 } else { b };
        if 65 <= c && c <= 90 {
            word.push(c);
        }
        proof {
            assert(bytes@.subrange(0, i as int + 1).drop_last() =~= bytes@.subrange(0, i as int));
        }
        i += 1;
    }
    proof {
        assert(bytes@.subrange(0, bytes@.len() as int) =~= bytes@);
    }
    if word.len() >= 3 {
        Some(word)
    } else {
        None
    }
}

/// The dictionary could not be decoded from its bytes.
#[derive(Debug, Clone, Copy, PartialEq, Eq, Structural)]
pub struct DecodeError;

/// A dictionary: a trie built from the entries of a word list.
pub struct Dictionary {
    trie: Trie<u8>,
}

impl Dictionary {
    /// The words of the dictionary, as byte strings.
    pub closed spec fn words(self) -> Set<Seq<u8>> {
        trie_words(self.trie)
    }

    /// The dictionary of the entries of `words`: each raw word's capital
    /// letters, where there are at least three.
    pub fn from_words(words: &Vec<String>) -> (d: Dictionary)
        ensures
            d.words() == entries(texts(words@)),
    {
        let mut builder = builder_new();
        let mut i: usize = 0;
        while i < words.len()
            invariant
                i <= words.len(),
                builder_words(builder) == entries(texts(words@.subrange(0, i as int))),
            decreases words.len() - i,
        {
            let ghost before = builder_words(builder);
            let ghost prev = texts(words@.subrange(0, i as int));
            let ghost next = texts(words@.subrange(0, i as int + 1));
            proof {
                assert forall|j: int| 0 <= j < prev.len() implies next[j] == prev[j] by {}
                assert(next[i as int] == words@[i as int]@);
            }
            match normalize_word(words[i].as_str()) {
                Some(w) => {
                    builder_push(&mut builder, &w);
                    proof {
                        assert(builder_words(builder) =~= entries(next)) by {
                            assert forall|x: Seq<u8>| entries(next).contains(x) implies #[trigger] builder_words(builder).contains(x) by {
                                let j = choose|j: int| 0 <= j < next.len() && entry_of(#[trigger] next[j]) == Some(x);
                                if j < i {
                                    assert(entry_of(prev[j]) == Some(x));
                                    assert(entries(prev).contains(x));
                                }
                            }
                            assert forall|x: Seq<u8>| builder_words(builder).contains(x) implies #[trigger] entries(next).contains(x) by {
                                if x != w@ {
                                    assert(entries(prev).contains(x));
                                    let j = choose|j: int| 0 <= j < prev.len() && entry_of(#[trigger] prev[j]) == Some(x);
                                    assert(entry_of(next[j]) == Some(x));
                                } else {
                                    assert(entry_of(next[i as int]) == Some(x));
                                }
                            }
                        }
                    }
                },
                None => {
                    proof {
                        assert(builder_words(builder) =~= entries(next)) by {
                            assert forall|x: Seq<u8>| entries(next).contains(x) implies #[trigger] builder_words(builder).contains(x) by {
                                let j = choose|j: int| 0 <= j < next.len() && entry_of(#[trigger] next[j]) == Some(x);
                                assert(j < i);
                                assert(entry_of(prev[j]) == Some(x));
                                assert(entries(prev).contains(x));
                            }
                            assert forall|x: Seq<u8>| builder_words(builder).contains(x) implies #[trigger] entries(next).contains(x) by {
                                let j = choose|j: int| 0 <= j < prev.len() && entry_of(#[trigger] prev[j]) == Some(x);
                                assert(entry_of(next[j]) == Some(x));
                            }
                        }
                    }
                },
            }
            i += 1;
        }
        proof {
            assert(words@.subrange(0, words.len() as int) =~= words@);
        }
        let trie = builder_build(builder);
        Dictionary { trie }
    }

    /// The dictionary of the word list whose `postcard` encoding is `bytes`.
    pub fn decode(bytes: &[u8]) -> (r: Result<Dictionary, DecodeError>)
        ensures
            match r {
                Ok(d) => exists|words: Seq<Seq<char>>| decoded_word_list(bytes@) == Some(words)
                    && d.words() == entries(words),
                Err(_) => decoded_word_list(bytes@) is None,
            },
    {
        match postcard_word_list(bytes) {
            Ok(words) => Ok(Dictionary::from_words(&words)),
            Err(_) => Err(DecodeError),
        }
    }

    /// The `postcard` encoding of a word list, which `decode` reads back to
    /// the same list.
    pub fn encode(words: &Vec<String>) -> (r: Vec<u8>)
        ensures
            r@ == encoded_word_list(texts(words@)),
            decoded_word_list(r@) == Some(texts(words@)),
    {
        match postcard_encode_words(words) {
            Ok(v) => v,
            Err(_) => {
                proof {
                    assert(false);
                }
                Vec::new()
            },
        }
    }
}

/// Decoding the bytes that `encode` gave for `words` succeeds, with the
/// dictionary of the entries of `words`: `r` stands for what `decode` returns.
pub proof fn lemma_encode_decode(words: Seq<String>, bytes: Seq<u8>, r: Result<Dictionary, DecodeError>)
    requires
        decoded_word_list(bytes) == Some(texts(words)),
        match r {
            Ok(d) => exists|list: Seq<Seq<char>>| decoded_word_list(bytes) == Some(list) && d.words() == entries(list),
            Err(_) => decoded_word_list(bytes) is None,
        },
    ensures
        r is Ok,
        r->Ok_0.words() == entries(texts(words)),
{
}

/// Calls `trie_rs::Trie::exact_match` on the dictionary's trie, which walks it
/// along `word`'s bytes. Claimed: true exactly when `word` is non-empty and one
/// of the dictionary's words (the walk never reports the empty query). The
/// trie was built by `TrieBuilder`, whose tries the lookup walks without
/// panicking.
#[verifier::external_body]
pub(crate) fn trie_exact_match(dict: &Dictionary, word: &str) -> (b: bool)
    ensures
        b == in_dictionary(dict.words(), encode_utf8(word@)),
{
    dict.trie.exact_match(word)
}

/// Calls `trie_rs::Trie::postfix_search` on the dictionary's trie, collecting
/// each postfix as bytes. Claimed: every non-empty byte string that completes
/// `word` to a word of the dictionary is among the results: the search
/// descends to `word` by the same ordered lookup as `exact_match` and then
/// visits every node below it. Left unsaid: the order of the results.
#[verifier::external_body]
pub(crate) fn trie_postfixes(dict: &Dictionary, word: &str) -> (r: Vec<Vec<u8>>)
    ensures
        forall|p: Seq<u8>| p.len() > 0 && #[trigger] dict.words().contains(encode_utf8(word@) + p)
            ==> exists|i: int| 0 <= i < r.len() && r[i]@ == p,
{
    dict.trie.postfix_search::<Vec<u8>, _>(word).collect()
}

} // verus!
