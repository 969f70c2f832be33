//! Scoring found words and listing them longest first.
use vstd::prelude::*;
use vstd::utf8::encode_utf8;
use vstd::multiset::Multiset;

verus! {

/// The length of a word in bytes.
pub open spec fn byte_len(s: String) -> int {
    encode_utf8(s@).len() as int
}

/// The points a word of `len` bytes scores: 1 up to four letters, then 2, 3
/// and 5 for five, six and seven letters, and 11 beyond.
pub open spec fn score_for_len(len: int) -> int {
    if len <= 4 {
        1
    } else if len == 5 {
        2
    } else if len == 6 {
        3
    } else if len == 7 {
        5
    } else {
        11
    }
}

/// Scores grow with length: 1 point for three and four letters, 2 for five,
/// 3 for six, 5 for seven, and 11 for every word of eight or more; a longer
/// word never scores less.
pub proof fn lemma_score_by_length(n: int, m: int)
    ensures
        3 <= n <= 4 ==> score_for_len(n) == 1,
        n == 5 ==> score_for_len(n) == 2,
        n == 6 ==> score_for_len(n) == 3,
        n == 7 ==> score_for_len(n) == 5,
        n >= 8 ==> score_for_len(n) == 11,
        3 <= n <= m ==> score_for_len(n) <= score_for_len(m),
{
}

/// The points `word` scores. Words are at least three bytes long.
pub fn word_score(word: &str) -> (score: u32)
    requires
        3 <= encode_utf8(word@).len() <= usize::MAX,
    ensures
        score == score_for_len(encode_utf8(word@).len() as int),
{
    let len = word.len();
    if len <= 4 {
        1
    } else if len == 5 {
        2
    } else if len == 6 {
        3
    } else if len == 7 {
        5
    } else {
        11
    }
}

/// The words of `words` that are `l` bytes long, in their order.
pub open spec fn of_len(words: Seq<String>, l: int) -> Seq<String>
    decreases words.len(),
{
    if words.len() == 0 {
        seq![]
    } else if byte_len(words.last()) == l {
        of_len(words.drop_last(), l).push(words.last())
    } else {
        of_len(words.drop_last(), l)
    }
}

/// The words of `words` at least `l` bytes long and at most 16, longest
/// first, keeping their order among words of one length.
spec fn groups_from(words: Seq<String>, l: int) -> Seq<String>
    decreases 17 - l,
{
    if l > 16 {
        seq![]
    } else {
        groups_from(words, l + 1) + of_len(words, l)
    }
}

proof fn lemma_of_len_elems(words: Seq<String>, l: int)
    ensures
        forall|i: int| 0 <= i < of_len(words, l).len() ==> byte_len(#[trigger] of_len(words, l)[i]) == l,
        (forall|i: int| 0 <= i < words.len() ==> byte_len(#[trigger] words[i]) != l) ==> of_len(words, l).len() == 0,
        of_len(words, l).len() == 0 ==> forall|i: int| 0 <= i < words.len() ==> byte_len(#[trigger] words[i]) != l,
    decreases words.len(),
{
    if words.len() > 0 {
        lemma_of_len_elems(words.drop_last(), l);
        let prev = of_len(words.drop_last(), l);
        assert forall|i: int| 0 <= i < of_len(words, l).len() implies byte_len(#[trigger] of_len(words, l)[i]) == l by {
            if i < prev.len() {
                assert(of_len(words, l)[i] == prev[i]);
            }
        }
        if forall|i: int| 0 <= i < words.len() ==> byte_len(#[trigger] words[i]) != l {
            assert forall|i: int| 0 <= i < words.drop_last().len() implies byte_len(#[trigger] words.drop_last()[i]) != l by {
                assert(words.drop_last()[i] == words[i]);
            }
            assert(byte_len(words[words.len() - 1]) != l);
        }
        if of_len(words, l).len() == 0 {
            assert forall|i: int| 0 <= i < words.len() implies byte_len(#[trigger] words[i]) != l by {
                if i < words.len() - 1 {
                    assert(words.drop_last()[i] == words[i]);
                }
            }
        }
    }
}

proof fn lemma_of_len_add(a: Seq<String>, b: Seq<String>, l: int)
    ensures
        of_len(a + b, l) == of_len(a, l) + of_len(b, l),
    decreases b.len(),
{
    if b.len() == 0 {
        assert(a + b =~= a);
        assert(of_len(a, l) + of_len(b, l) =~= of_len(a, l));
    } else {
        lemma_of_len_add(a, b.drop_last(), l);
        assert((a + b).drop_last() =~= a + b.drop_last());
        assert((a + b).last() == b.last());
        if byte_len(b.last()) == l {
            assert(of_len(a + b, l) =~= of_len(a, l) + of_len(b, l));
        }
    }
}

proof fn lemma_of_len_of_len(words: Seq<String>, l: int, m: int)
    ensures
        of_len(of_len(words, m), l) == if l == m { of_len(words, l) } else { seq![] },
{
    lemma_of_len_elems(words, m);
    lemma_of_len_elems(of_len(words, m), l);
    if l == m {
        lemma_of_len_same(of_len(words, m), l);
    } else {
        assert(of_len(of_len(words, m), l) =~= seq![]);
    }
}

proof fn lemma_of_len_same(words: Seq<String>, l: int)
    requires
        forall|i: int| 0 <= i < words.len() ==> byte_len(#[trigger] words[i]) == l,
    ensures
        of_len(words, l) == words,
    decreases words.len(),
{
    if words.len() > 0 {
        assert forall|i: int| 0 <= i < words.drop_last().len() implies byte_len(#[trigger] words.drop_last()[i]) == l by {
            assert(words.drop_last()[i] == words[i]);
        }
        lemma_of_len_same(words.drop_last(), l);
        assert(byte_len(words[words.len() - 1]) == l);
        assert(words.drop_last().push(words.last()) =~= words);
    }
}

/// The groups from length `l` up are ordered longest first, hold only words
/// of at least `l` bytes, and hold each length's words in their order.
proof fn lemma_groups(words: Seq<String>, l: int)
    requires
        l >= 0,
    ensures
        forall|i: int, j: int| 0 <= i < j < groups_from(words, l).len() ==>
            byte_len(#[trigger] groups_from(words, l)[i]) >= byte_len(#[trigger] groups_from(words, l)[j]),
        forall|i: int| 0 <= i < groups_from(words, l).len() ==> byte_len(#[trigger] groups_from(words, l)[i]) >= l,
        forall|m: int| of_len(groups_from(words, l), m) == if l <= m <= 16 { of_len(words, m) } else { seq![] },
    decreases 17 - l,
{
    if l > 16 {
        assert forall|m: int| of_len(groups_from(words, l), m) == if l <= m <= 16 { of_len(words, m) } else { seq![] } by {
            assert(groups_from(words, l) =~= seq![]);
        }
    } else {
        lemma_groups(words, l + 1);
        let g = groups_from(words, l + 1);
        let o = of_len(words, l);
        lemma_of_len_elems(words, l);
        let all = groups_from(words, l);
        assert(all == g + o);
        assert forall|i: int, j: int| 0 <= i < j < all.len() implies
            byte_len(#[trigger] all[i]) >= byte_len(#[trigger] all[j]) by {
            if j < g.len() {
                assert(all[i] == g[i] && all[j] == g[j]);
            } else if i < g.len() {
                assert(all[i] == g[i] && all[j] == o[j - g.len()]);
            } else {
                assert(all[i] == o[i - g.len()] && all[j] == o[j - g.len()]);
            }
        }
        assert forall|i: int| 0 <= i < all.len() implies byte_len(#[trigger] all[i]) >= l by {
            if i < g.len() {
                assert(all[i] == g[i]);
            } else {
                assert(all[i] == o[i - g.len()]);
            }
        }
        assert forall|m: int| of_len(all, m) == if l <= m <= 16 { of_len(words, m) } else { seq![] } by {
            lemma_of_len_add(g, o, m);
            lemma_of_len_of_len(words, m, l);
            if m == l {
                lemma_of_len_elems(g, m);
                assert(of_len(g, m) =~= seq![]);
                assert(of_len(all, m) =~= of_len(words, m));
            } else {
                assert(of_len(all, m) =~= of_len(g, m));
            }
        }
    }
}

/// Lists `words` longest first, keeping the order of words of equal length.
/// No word may be longer than 16 bytes.
pub fn order_longest_first(words: Vec<String>) -> (r: Vec<String>)
    requires
        forall|i: int| 0 <= i < words.len() ==> byte_len(#[trigger] words[i]) <= 16,
    ensures
        forall|i: int, j: int| 0 <= i < j < r.len() ==> byte_len(#[trigger] r[i]) >= byte_len(#[trigger] r[j]),
        forall|l: int| #[trigger] of_len(r@, l) == of_len(words@, l),
{
    let mut r: Vec<String> = Vec::new();
    let mut l: usize = 17;
    while l > 0
        invariant
            l <= 17,
            r@ == groups_from(words@, l as int),
            forall|k: int| 0 <= k < words.len() ==> byte_len(#[trigger] words[k]) <= 16,
        decreases l,
    {
        l -= 1;
        let mut i: usize = 0;
        while i < words.len()
            invariant
                l <= 16,
                i <= words.len(),
                forall|k: int| 0 <= k < words.len() ==> byte_len(#[trigger] words[k]) <= 16,
                r@ == groups_from(words@, l as int + 1) + of_len(words@.subrange(0, i as int), l as int),
            decreases words.len() - i,
        {
            let ghost before = r@;
            if words[i].as_str().len() == l {
                r.push(words[i].clone());
            }
            proof {
                let s = words@.subrange(0, i as int + 1);
                assert(s.drop_last() =~= words@.subrange(0, i as int));
                assert(s.last() == words@[i as int]);
                if byte_len(words@[i as int]) == l as int {
                    assert(r@ =~= groups_from(words@, l as int + 1) + of_len(s, l as int));
                } else {
                    assert(r@ =~= groups_from(words@, l as int + 1) + of_len(s, l as int));
                }
            }
            i += 1;
        }
        assert(words@.subrange(0, words.len() as int) =~= words@);
    }
    proof {
        lemma_groups(words@, 0);
        assert forall|m: int| #[trigger] of_len(r@, m) == of_len(words@, m) by {
            if m < 0 || m > 16 {
                lemma_of_len_elems(words@, m);
                assert(of_len(words@, m) =~= seq![]);
            }
        }
    }
    r
}


/// The words of `words` of at most `l` bytes, as a multiset, gathered length
/// by length.
spec fn bag_upto(words: Seq<String>, l: int) -> Multiset<String>
    decreases l + 1,
{
    if l < 0 {
        Multiset::empty()
    } else {
        bag_upto(words, l - 1).add(of_len(words, l).to_multiset())
    }
}

proof fn lemma_bag_upto_push(words: Seq<String>, x: String, l: int)
    ensures
        bag_upto(words.push(x), l) == if 0 <= byte_len(x) <= l { bag_upto(words, l).insert(x) } else { bag_upto(words, l) },
    decreases l + 1,
{
    broadcast use vstd::seq_lib::to_multiset_build;
    if l >= 0 {
        lemma_bag_upto_push(words, x, l - 1);
        assert(words.push(x).drop_last() =~= words);
        assert(bag_upto(words.push(x), l) =~= if 0 <= byte_len(x) <= l { bag_upto(words, l).insert(x) } else { bag_upto(words, l) });
    }
}

proof fn lemma_bag_upto_all(words: Seq<String>)
    requires
        forall|i: int| 0 <= i < words.len() ==> byte_len(#[trigger] words[i]) <= 16,
    ensures
        bag_upto(words, 16) == words.to_multiset(),
    decreases words.len(),
{
    broadcast use vstd::seq_lib::to_multiset_build;
    if words.len() == 0 {
        lemma_bag_upto_empty(words, 16);
        assert(words.to_multiset() =~= Multiset::empty()) by {
            broadcast use vstd::seq_lib::group_to_multiset_ensures;
        }
    } else {
        let init = words.drop_last();
        assert forall|i: int| 0 <= i < init.len() implies byte_len(#[trigger] init[i]) <= 16 by {
            assert(init[i] == words[i]);
        }
        lemma_bag_upto_all(init);
        assert(byte_len(words[words.len() - 1]) <= 16);
        lemma_bag_upto_push(init, words.last(), 16);
        assert(init.push(words.last()) =~= words);
    }
}

proof fn lemma_bag_upto_empty(words: Seq<String>, l: int)
    requires
        words.len() == 0,
    ensures
        bag_upto(words, l) == Multiset::<String>::empty(),
    decreases l + 1,
{
    broadcast use vstd::seq_lib::group_to_multiset_ensures;
    if l >= 0 {
        lemma_bag_upto_empty(words, l - 1);
        assert(of_len(words, l).len() == 0);
        assert(of_len(words, l).to_multiset() =~= Multiset::empty());
        assert(bag_upto(words, l) =~= Multiset::empty());
    }
}

proof fn lemma_bag_upto_same(a: Seq<String>, b: Seq<String>, l: int)
    requires
        forall|m: int| #[trigger] of_len(a, m) == of_len(b, m),
    ensures
        bag_upto(a, l) == bag_upto(b, l),
    decreases l + 1,
{
    if l >= 0 {
        lemma_bag_upto_same(a, b, l - 1);
        assert(of_len(a, l) == of_len(b, l));
    }
}

/// Listing words longest first, keeping the order of words of equal length,
/// neither loses nor adds a word: the result is a rearrangement.
pub proof fn lemma_longest_first_rearranges(words: Seq<String>, r: Seq<String>)
    requires
        forall|i: int| 0 <= i < words.len() ==> byte_len(#[trigger] words[i]) <= 16,
        forall|l: int| #[trigger] of_len(r, l) == of_len(words, l),
    ensures
        r.to_multiset() == words.to_multiset(),
{
    assert forall|i: int| 0 <= i < r.len() implies byte_len(#[trigger] r[i]) <= 16 by {
        let l = byte_len(r[i]);
        if l > 16 {
            lemma_of_len_elems(words, l);
            lemma_of_len_elems(r, l);
            assert(of_len(r, l).len() == 0);
            assert(of_len(r, l).len() != 0);
        }
    }
    lemma_bag_upto_all(words);
    lemma_bag_upto_all(r);
    lemma_bag_upto_same(r, words, 16);
}

} // verus!
