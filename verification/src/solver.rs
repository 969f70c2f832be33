//! Finding the dictionary words that can be spelled on a board by paths that
//! start at a given tile.
use vstd::prelude::*;
use vstd::multiset::Multiset;
use vstd::utf8::encode_utf8;
use vstd::set_lib::{set_int_range, lemma_int_range, lemma_len_subset};
use crate::board::{
    Tile, Boggle, TileLocation, BoardPath, tile_at, tile_chars, next_locs, extensions_below, may_extend,
    is_loc, tile_number, tile_of_number, lemma_tile_letters, adjacent, last_loc,
};
use vstd::utf8::{is_ascii_chars, is_ascii_chars_encode_utf8};
use crate::dictionary::{in_dictionary, texts, Dictionary, trie_exact_match, trie_postfixes};
use std::collections::BTreeSet;

verus! {

/// The letters spelled by the tiles of `b` along `path`.
pub open spec fn path_chars(b: Boggle, path: Seq<int>) -> Seq<char>
    decreases path.len(),
{
    if path.len() == 0 {
        seq![]
    } else {
        path_chars(b, path.drop_last()) + tile_chars(tile_at(b, path.last()))
    }
}

/// The word spelled along `path`, once, where `dict` holds it.
pub open spec fn own_word(b: Boggle, dict: Set<Seq<u8>>, path: Seq<int>) -> Multiset<Seq<char>> {
    if in_dictionary(dict, encode_utf8(path_chars(b, path))) {
        Multiset::singleton(path_chars(b, path))
    } else {
        Multiset::empty()
    }
}

/// The words of `dict` spelled along `path` and along every path that
/// continues it, one step at a time, to a neighbouring tile it has not
/// visited: one copy for each such path. A path has at most 16 locations.
pub open spec fn found_words(b: Boggle, dict: Set<Seq<u8>>, path: Seq<int>) -> Multiset<Seq<char>>
    decreases 16 - path.len(), next_locs(path).len() + 1,
{
    if path.len() >= 16 {
        own_word(b, dict, path)
    } else {
        own_word(b, dict, path).add(found_after(b, dict, path, next_locs(path)))
    }
}

/// The words found along the continuations of `path` by each of `exts`.
pub open spec fn found_after(b: Boggle, dict: Set<Seq<u8>>, path: Seq<int>, exts: Seq<int>) -> Multiset<Seq<char>>
    decreases 16 - path.len(), exts.len(),
{
    if exts.len() == 0 || path.len() >= 16 {
        Multiset::empty()
    } else {
        found_after(b, dict, path, exts.drop_last()).add(found_words(b, dict, path.push(exts.last())))
    }
}

/// The word spelled along `path`, as a list of one, where `dict` holds it.
pub open spec fn own_list(b: Boggle, dict: Set<Seq<u8>>, path: Seq<int>) -> Seq<Seq<char>> {
    if in_dictionary(dict, encode_utf8(path_chars(b, path))) {
        seq![path_chars(b, path)]
    } else {
        seq![]
    }
}

/// The words of `found_words`, in the order a depth-first search reports
/// them: the word along `path` first, then the words found from its
/// continuations, taken from the lowest location number up.
pub open spec fn search_order(b: Boggle, dict: Set<Seq<u8>>, path: Seq<int>) -> Seq<Seq<char>>
    decreases 16 - path.len(), next_locs(path).len() + 1,
{
    if path.len() >= 16 {
        own_list(b, dict, path)
    } else {
        own_list(b, dict, path) + search_after(b, dict, path, next_locs(path))
    }
}

/// The words reported from the continuations of `path` by each of `exts`,
/// the last of `exts` first.
pub open spec fn search_after(b: Boggle, dict: Set<Seq<u8>>, path: Seq<int>, exts: Seq<int>) -> Seq<Seq<char>>
    decreases 16 - path.len(), exts.len(),
{
    if exts.len() == 0 || path.len() >= 16 {
        seq![]
    } else {
        search_order(b, dict, path.push(exts.last())) + search_after(b, dict, path, exts.drop_last())
    }
}

proof fn lemma_to_multiset_add<A>(a: Seq<A>, c: Seq<A>)
    ensures
        (a + c).to_multiset() == a.to_multiset().add(c.to_multiset()),
    decreases c.len(),
{
    broadcast use vstd::seq_lib::group_to_multiset_ensures;
    if c.len() == 0 {
        assert(a + c =~= a);
        assert(a.to_multiset().add(c.to_multiset()) =~= a.to_multiset());
    } else {
        lemma_to_multiset_add(a, c.drop_last());
        assert(a + c =~= (a + c.drop_last()).push(c.last()));
        assert(c =~= c.drop_last().push(c.last()));
        assert((a + c).to_multiset() =~= a.to_multiset().add(c.to_multiset()));
    }
}

/// The search order lists exactly the words found, each as often.
pub proof fn lemma_search_order_bag(b: Boggle, dict: Set<Seq<u8>>, path: Seq<int>)
    ensures
        search_order(b, dict, path).to_multiset() == found_words(b, dict, path),
    decreases 16 - path.len(), next_locs(path).len() + 1,
{
    broadcast use vstd::seq_lib::group_to_multiset_ensures;
    let own = own_list(b, dict, path);
    assert(own.to_multiset() =~= own_word(b, dict, path)) by {
        if own.len() == 1 {
            assert(own =~= Seq::<Seq<char>>::empty().push(path_chars(b, path)));
        } else {
            assert(own =~= Seq::<Seq<char>>::empty());
        }
    }
    if path.len() < 16 {
        lemma_search_after_bag(b, dict, path, next_locs(path));
        lemma_to_multiset_add(own, search_after(b, dict, path, next_locs(path)));
    }
}

proof fn lemma_search_after_bag(b: Boggle, dict: Set<Seq<u8>>, path: Seq<int>, exts: Seq<int>)
    ensures
        search_after(b, dict, path, exts).to_multiset() == found_after(b, dict, path, exts),
    decreases 16 - path.len(), exts.len(),
{
    broadcast use vstd::seq_lib::group_to_multiset_ensures;
    if exts.len() == 0 || path.len() >= 16 {
        assert(search_after(b, dict, path, exts).to_multiset() =~= Multiset::empty());
    } else {
        lemma_search_order_bag(b, dict, path.push(exts.last()));
        lemma_search_after_bag(b, dict, path, exts.drop_last());
        lemma_to_multiset_add(search_order(b, dict, path.push(exts.last())), search_after(b, dict, path, exts.drop_last()));
        assert(search_after(b, dict, path, exts).to_multiset() =~= found_after(b, dict, path, exts));
    }
}

/// A list whose multiset is empty is empty.
proof fn lemma_empty_bag<A>(s: Seq<A>)
    requires
        s.to_multiset() =~= Multiset::empty(),
    ensures
        s == Seq::<A>::empty(),
{
    broadcast use vstd::seq_lib::group_to_multiset_ensures;
    assert(s.len() == s.to_multiset().len());
    assert(s =~= Seq::<A>::empty());
}

/// A path that visits each of its locations once.
pub open spec fn is_simple(path: Seq<int>) -> bool {
    &&& path.no_duplicates()
    &&& forall|i: int| 0 <= i < path.len() ==> is_loc(#[trigger] path[i])
}

/// A path that has visited 15 distinct locations has at most one location
/// left to continue to.
pub proof fn lemma_one_left(path: Seq<int>)
    requires
        is_simple(path),
        path.len() == 15,
    ensures
        next_locs(path).len() <= 1,
{
    let e = extensions_below(path, 16);
    crate::board::lemma_extensions_elems(path, 16);
    if e.len() >= 2 {
        let q0 = e[0];
        let q1 = e[1];
        assert(may_extend(path, q0) && may_extend(path, q1));
        path.unique_seq_to_set();
        let s = path.to_set().insert(q0).insert(q1);
        lemma_int_range(0, 16);
        assert(s.subset_of(set_int_range(0, 16)));
        lemma_len_subset(s, set_int_range(0, 16));
        assert(!path.to_set().contains(q0));
        assert(!path.to_set().insert(q0).contains(q1));
        assert(s.len() == 17);
    }
}


/// The tile whose letters begin the byte string `p`, if there is one: a `Q`
/// must be followed by `U` to begin the `QU` tile, and any other capital letter
/// begins its own tile.
pub open spec fn leading_tile(p: Seq<u8>) -> Option<Tile> {
    if p.len() == 0 {
        None
    } else if p[0] == 81 {
        if p.len() >= 2 && p[1] == 85 {
            Some(Tile::QU)
        } else {
            None
        }
    } else if 65 <= p[0] <= 90 {
        Some(tile_of_number(p[0] - 65))
    } else {
        None
    }
}

proof fn lemma_encode_ascii_concat(a: Seq<char>, b: Seq<char>)
    requires
        is_ascii_chars(a),
        is_ascii_chars(b),
    ensures
        is_ascii_chars(a + b),
        encode_utf8(a + b) == encode_utf8(a) + encode_utf8(b),
{
    let ab = a + b;
    assert(is_ascii_chars(ab)) by {
        assert forall|i: int| 0 <= i < ab.len() implies '\0' <= #[trigger] ab[i] <= '\u{7f}' by {
            if i < a.len() {
                assert(ab[i] == a[i]);
            } else {
                assert(ab[i] == b[i - a.len()]);
            }
        }
    }
    is_ascii_chars_encode_utf8(a);
    is_ascii_chars_encode_utf8(b);
    is_ascii_chars_encode_utf8(ab);
    assert forall|i: int| 0 <= i < ab.len() implies encode_utf8(ab)[i] == (encode_utf8(a) + encode_utf8(b))[i] by {
        if i < a.len() {
            assert(ab[i] == a[i]);
        } else {
            assert(ab[i] == b[i - a.len()]);
        }
    }
    assert(encode_utf8(ab) =~= encode_utf8(a) + encode_utf8(b));
}

/// The letters along a path are capitals.
proof fn lemma_path_chars_ascii(b: Boggle, path: Seq<int>)
    ensures
        is_ascii_chars(path_chars(b, path)),
        forall|i: int| 0 <= i < path_chars(b, path).len() ==> 'A' <= #[trigger] path_chars(b, path)[i] <= 'Z',
    decreases path.len(),
{
    if path.len() > 0 {
        lemma_path_chars_ascii(b, path.drop_last());
        let pre = path_chars(b, path.drop_last());
        let t = tile_at(b, path.last());
        lemma_tile_letters(t);
        let all = path_chars(b, path);
        assert forall|i: int| 0 <= i < all.len() implies 'A' <= #[trigger] all[i] <= 'Z' by {
            if i < pre.len() {
                assert(all[i] == pre[i]);
            } else {
                assert(all[i] == tile_chars(t)[i - pre.len()]);
            }
        }
    }
}

/// The bytes of a tile's letters, followed by anything, begin with that tile.
proof fn lemma_leading_tile(t: Tile, rest: Seq<char>)
    requires
        is_ascii_chars(rest),
    ensures
        leading_tile(encode_utf8(tile_chars(t) + rest)) == Some(t),
{
    lemma_tile_letters(t);
    assert(is_ascii_chars(tile_chars(t)));
    lemma_encode_ascii_concat(tile_chars(t), rest);
    let c = tile_chars(t) + rest;
    is_ascii_chars_encode_utf8(c);
    assert(c[0] == tile_chars(t)[0]);
    if t == Tile::QU {
        assert(c[1] == tile_chars(t)[1]);
    }
}

/// Whether `w` is a word of `dict` that begins with the letters along `path`.
pub open spec fn extends_path(b: Boggle, dict: Set<Seq<u8>>, path: Seq<int>, w: Seq<char>) -> bool {
    &&& in_dictionary(dict, encode_utf8(w))
    &&& is_ascii_chars(w)
    &&& path_chars(b, path).len() <= w.len()
    &&& w.subrange(0, path_chars(b, path).len() as int) == path_chars(b, path)
}

/// Every word found from a path is in the dictionary and begins with the
/// letters along that path.
pub proof fn lemma_found_words_sound(b: Boggle, dict: Set<Seq<u8>>, path: Seq<int>, w: Seq<char>)
    requires
        found_words(b, dict, path).count(w) > 0,
    ensures
        extends_path(b, dict, path, w),
    decreases 16 - path.len(), next_locs(path).len() + 1,
{
    lemma_path_chars_ascii(b, path);
    if own_word(b, dict, path).count(w) > 0 {
        assert(w == path_chars(b, path));
        assert(w.subrange(0, w.len() as int) =~= w);
    } else {
        assert(path.len() < 16);
        lemma_found_after_sound(b, dict, path, next_locs(path), w);
    }
}

proof fn lemma_found_after_sound(b: Boggle, dict: Set<Seq<u8>>, path: Seq<int>, exts: Seq<int>, w: Seq<char>)
    requires
        found_after(b, dict, path, exts).count(w) > 0,
    ensures
        extends_path(b, dict, path, w),
    decreases 16 - path.len(), exts.len(),
{
    if found_after(b, dict, path, exts.drop_last()).count(w) > 0 {
        lemma_found_after_sound(b, dict, path, exts.drop_last(), w);
    } else {
        let child = path.push(exts.last());
        lemma_found_words_sound(b, dict, child, w);
        assert(child.drop_last() =~= path);
        let pc = path_chars(b, path);
        let cc = path_chars(b, child);
        assert(cc == pc + tile_chars(tile_at(b, exts.last())));
        assert(w.subrange(0, pc.len() as int) =~= cc.subrange(0, pc.len() as int));
        assert(cc.subrange(0, pc.len() as int) =~= pc);
    }
}


/// A path continued to `q` finds nothing unless one of `posts`, which hold
/// every completion of the path's letters to a dictionary word, begins with
/// the tile at `q`.
proof fn lemma_pruned(b: Boggle, dict: Set<Seq<u8>>, path: Seq<int>, q: int, posts: Seq<Vec<u8>>)
    requires
        forall|p: Seq<u8>| p.len() > 0 && #[trigger] dict.contains(encode_utf8(path_chars(b, path)) + p)
            ==> exists|i: int| 0 <= i < posts.len() && posts[i]@ == p,
        forall|i: int| 0 <= i < posts.len() ==> leading_tile(#[trigger] posts[i]@) != Some(tile_at(b, q)),
    ensures
        found_words(b, dict, path.push(q)) =~= Multiset::empty(),
{
    let child = path.push(q);
    assert forall|w: Seq<char>| found_words(b, dict, child).count(w) == 0 by {
        if found_words(b, dict, child).count(w) > 0 {
            lemma_found_words_sound(b, dict, child, w);
            assert(child.drop_last() =~= path);
            let pc = path_chars(b, path);
            let t = tile_at(b, q);
            let tc = tile_chars(t);
            let cc = path_chars(b, child);
            assert(cc == pc + tc);
            let rest = w.subrange(pc.len() as int, w.len() as int);
            let rest2 = w.subrange(cc.len() as int, w.len() as int);
            assert(w.subrange(0, cc.len() as int) == cc);
            assert forall|i: int| 0 <= i < w.len() implies w[i] == (pc + rest)[i] by {
                if i < pc.len() {
                    assert(w.subrange(0, cc.len() as int)[i] == cc[i]);
                }
            }
            assert(w =~= pc + rest);
            assert(rest =~= tc + rest2) by {
                assert forall|i: int| 0 <= i < tc.len() implies rest[i] == tc[i] by {
                    assert(rest[i] == w[pc.len() + i]);
                    assert(w.subrange(0, cc.len() as int)[pc.len() + i] == cc[pc.len() + i]);
                }
            }
            assert(is_ascii_chars(rest)) by {
                assert forall|i: int| 0 <= i < rest.len() implies '\0' <= #[trigger] rest[i] <= '\u{7f}' by {
                    assert(rest[i] == w[pc.len() + i]);
                }
            }
            assert(is_ascii_chars(rest2)) by {
                assert forall|i: int| 0 <= i < rest2.len() implies '\0' <= #[trigger] rest2[i] <= '\u{7f}' by {
                    assert(rest2[i] == w[cc.len() + i]);
                }
            }
            lemma_path_chars_ascii(b, path);
            lemma_encode_ascii_concat(pc, rest);
            lemma_leading_tile(t, rest2);
            let p = encode_utf8(rest);
            lemma_tile_letters(t);
            is_ascii_chars_encode_utf8(rest);
            assert(p.len() > 0);
            assert(dict.contains(encode_utf8(pc) + p));
            let i = choose|i: int| 0 <= i < posts.len() && posts[i]@ == p;
            assert(leading_tile(posts[i]@) == Some(t));
        }
    }
}

/// Positions below 26 and tiles correspond one to one.
proof fn lemma_tile_numbers()
    ensures
        forall|n: int| 0 <= n < 26 ==> tile_number(#[trigger] tile_of_number(n)) == n,
{
}

/// The tile that begins `p`, as `leading_tile` says.
fn leading_tile_of(p: &Vec<u8>) -> (r: Option<Tile>)
    ensures
        r == leading_tile(p@),
{
    if p.len() == 0 {
        return None;
    }
    let c = p[0];
    if c == 81 {
        if p.len() >= 2 && p[1] == 85 {
            Some(Tile::QU)
        } else {
            None
        }
    } else if 65 <= c && c <= 90 {
        Some(Tile::from_number((c - 65) as usize))
    } else {
        None
    }
}

/// The alphabet positions of the tiles that begin one of `posts`.
fn leading_tiles(posts: &Vec<Vec<u8>>) -> (r: BTreeSet<usize>)
    ensures
        forall|n: usize| #[trigger] r@.contains(n) ==> n < 26,
        forall|n: usize| n < 26 ==> (#[trigger] r@.contains(n) <==> exists|i: int| 0 <= i < posts.len()
            && leading_tile(#[trigger] posts[i]@) == Some(tile_of_number(n as int))),
{
    proof {
        lemma_tile_numbers();
    }
    let mut r: BTreeSet<usize> = BTreeSet::new();
    let mut i: usize = 0;
    while i < posts.len()
        invariant
            i <= posts.len(),
            forall|n: int| 0 <= n < 26 ==> tile_number(#[trigger] tile_of_number(n)) == n,
            forall|n: usize| #[trigger] r@.contains(n) ==> n < 26,
            forall|n: usize| n < 26 ==> (#[trigger] r@.contains(n) <==> exists|k: int| 0 <= k < i
                && leading_tile(#[trigger] posts[k]@) == Some(tile_of_number(n as int))),
        decreases posts.len() - i,
    {
        let ghost before = r@;
        match leading_tile_of(&posts[i]) {
            Some(t) => {
                let n = t.number();
                proof {
                    lemma_tile_letters(t);
                }
                r.insert(n);
                proof {
                    assert(r@ == before.insert(n));
                    assert forall|m: usize| m < 26 implies (#[trigger] r@.contains(m) <==> exists|k: int| 0 <= k < i + 1
                        && leading_tile(#[trigger] posts[k]@) == Some(tile_of_number(m as int))) by {
                        if m == n {
                            assert(leading_tile(posts[i as int]@) == Some(tile_of_number(m as int)));
                        } else if before.contains(m) {
                            let k = choose|k: int| 0 <= k < i && leading_tile(#[trigger] posts[k]@) == Some(tile_of_number(m as int));
                            assert(0 <= k < i + 1);
                        } else {
                            if exists|k: int| 0 <= k < i + 1 && leading_tile(#[trigger] posts[k]@) == Some(tile_of_number(m as int)) {
                                let k = choose|k: int| 0 <= k < i + 1 && leading_tile(#[trigger] posts[k]@) == Some(tile_of_number(m as int));
                                if k == i {
                                    assert(tile_of_number(m as int) == t);
                                    assert(false);
                                }
                            }
                        }
                    }
                }
            },
            None => {
                proof {
                    assert forall|m: usize| m < 26 implies (#[trigger] r@.contains(m) <==> exists|k: int| 0 <= k < i + 1
                        && leading_tile(#[trigger] posts[k]@) == Some(tile_of_number(m as int))) by {
                        if r@.contains(m) {
                            let k = choose|k: int| 0 <= k < i && leading_tile(#[trigger] posts[k]@) == Some(tile_of_number(m as int));
                            assert(0 <= k < i + 1);
                        }
                    }
                }
            },
        }
        i += 1;
    }
    r
}

/// The number of paths that continue `path` (itself included), as
/// `found_words` walks them.
spec fn tree_size(path: Seq<int>) -> nat
    decreases 16 - path.len(), next_locs(path).len() + 1,
{
    if path.len() >= 16 {
        1
    } else {
        1 + size_after(path, next_locs(path))
    }
}

spec fn size_after(path: Seq<int>, exts: Seq<int>) -> nat
    decreases 16 - path.len(), exts.len(),
{
    if exts.len() == 0 || path.len() >= 16 {
        0
    } else {
        size_after(path, exts.drop_last()) + tree_size(path.push(exts.last()))
    }
}

/// The number of paths still to be walked from those waiting on `stack`.
spec fn pending_size(stack: Seq<BoardPath>) -> nat
    decreases stack.len(),
{
    if stack.len() == 0 {
        0
    } else {
        pending_size(stack.drop_last()) + tree_size(stack.last().locs())
    }
}

/// The texts of a list of strings, as a multiset.
pub open spec fn word_bag(words: Seq<String>) -> Multiset<Seq<char>> {
    texts(words).to_multiset()
}

/// The letters along `path`, as a string.
fn path_word(board: &Boggle, path: BoardPath) -> (word: String)
    ensures
        word@ == path_chars(*board, path.locs()),
{
    let ghost locs = path.locs();
    let mut word = String::new();
    let mut tiles = path.into_iter();
    let ghost mut k: int = 0;
    loop
        invariant
            0 <= k <= locs.len(),
            tiles.remaining() == locs.subrange(k, locs.len() as int),
            word@ == path_chars(*board, locs.subrange(0, k)),
        ensures
            word@ == path_chars(*board, locs),
        decreases locs.len() - k,
    {
        match tiles.next() {
            None => {
                assert(locs.subrange(0, k) =~= locs);
                break;
            },
            Some(tile) => {
                word.append(board.index(tile).as_str());
                proof {
                    assert(locs.subrange(0, k + 1).drop_last() =~= locs.subrange(0, k));
                    assert(locs.subrange(0, k + 1).last() == locs[k]);
                    k = k + 1;
                    assert(tiles.remaining() =~= locs.subrange(k, locs.len() as int));
                }
            },
        }
    }
    word
}


/// Continuing a simple path to one of its next locations keeps it simple.
proof fn lemma_next_simple(path: Seq<int>, k: int)
    requires
        is_simple(path),
        0 <= k < next_locs(path).len(),
    ensures
        is_simple(path.push(next_locs(path)[k])),
{
    crate::board::lemma_extensions_elems(path, 16);
    let e = extensions_below(path, 16);
    let q = next_locs(path)[k];
    assert(q == e[e.len() - 1 - k]);
    assert(may_extend(path, q));
    let np = path.push(q);
    assert forall|i: int, j: int| 0 <= i < np.len() && 0 <= j < np.len() && i != j implies np[i] != np[j] by {
        if i < path.len() && j < path.len() {
        } else if i < path.len() {
            assert(path.contains(np[i]));
        } else if j < path.len() {
            assert(path.contains(np[j]));
        }
    }
}

proof fn lemma_search_after_empty(b: Boggle, dict: Set<Seq<u8>>, path: Seq<int>, exts: Seq<int>)
    requires
        forall|k: int| 0 <= k < exts.len() ==> search_order(b, dict, path.push(#[trigger] exts[k])) == Seq::<Seq<char>>::empty(),
    ensures
        search_after(b, dict, path, exts) == Seq::<Seq<char>>::empty(),
    decreases exts.len(),
{
    if exts.len() > 0 && path.len() < 16 {
        let init = exts.drop_last();
        assert forall|k: int| 0 <= k < init.len() implies search_order(b, dict, path.push(#[trigger] init[k])) == Seq::<Seq<char>>::empty() by {
            assert(init[k] == exts[k]);
        }
        lemma_search_after_empty(b, dict, path, init);
        assert(search_order(b, dict, path.push(exts[exts.len() - 1])) == Seq::<Seq<char>>::empty());
        assert(search_after(b, dict, path, exts) =~= Seq::<Seq<char>>::empty());
    }
}

/// A continuation that finds no word is reported as nothing.
proof fn lemma_pruned_order(b: Boggle, dict: Set<Seq<u8>>, path: Seq<int>, q: int, posts: Seq<Vec<u8>>)
    requires
        forall|p: Seq<u8>| p.len() > 0 && #[trigger] dict.contains(encode_utf8(path_chars(b, path)) + p)
            ==> exists|i: int| 0 <= i < posts.len() && posts[i]@ == p,
        forall|i: int| 0 <= i < posts.len() ==> leading_tile(#[trigger] posts[i]@) != Some(tile_at(b, q)),
    ensures
        search_order(b, dict, path.push(q)) == Seq::<Seq<char>>::empty(),
{
    lemma_pruned(b, dict, path, q, posts);
    lemma_search_order_bag(b, dict, path.push(q));
    lemma_empty_bag(search_order(b, dict, path.push(q)));
}

/// The words still to be reported from the paths waiting on `stack`, the
/// last path first.
spec fn pending_order(b: Boggle, dict: Set<Seq<u8>>, stack: Seq<BoardPath>) -> Seq<Seq<char>>
    decreases stack.len(),
{
    if stack.len() == 0 {
        seq![]
    } else {
        search_order(b, dict, stack.last().locs()) + pending_order(b, dict, stack.drop_last())
    }
}

proof fn lemma_texts_push(words: Seq<String>, w: String)
    ensures
        texts(words.push(w)) == texts(words).push(w@),
{
    assert(texts(words.push(w)) =~= texts(words).push(w@));
}

/// The words of the dictionary spelled on `board` along the paths that start
/// at `starting_tile` and step to neighbouring tiles they have not visited, one
/// for each such path, in the order of a depth-first search that tries the
/// continuations of a path from the lowest location number up.
pub fn solve_from_tile(board: &Boggle, dictionary: &Dictionary, starting_tile: TileLocation) -> (words: Vec<String>)
    ensures
        texts(words@) == search_order(*board, dictionary.words(), seq![starting_tile.index_spec()]),
        word_bag(words@) == found_words(*board, dictionary.words(), seq![starting_tile.index_spec()]),
{
    let ghost b = *board;
    let ghost dict = dictionary.words();
    let mut words: Vec<String> = Vec::new();
    let start = BoardPath::starting_at(starting_tile);
    let ghost goal = search_order(b, dict, start.locs());
    let mut to_explore: Vec<BoardPath> = Vec::new();
    to_explore.push(start);
    proof {
        start.lemma_locs_wf();
        assert(to_explore@ =~= seq![start]);
        assert(to_explore@.drop_last() =~= Seq::<BoardPath>::empty());
        assert(texts(words@) =~= Seq::<Seq<char>>::empty());
        assert(pending_order(b, dict, to_explore@) == search_order(b, dict, to_explore@.last().locs())
            + pending_order(b, dict, to_explore@.drop_last()));
        assert(to_explore@.last() == start);
        assert(texts(words@) + pending_order(b, dict, to_explore@) =~= goal);
    }
    while to_explore.len() > 0
        invariant
            b == *board,
            dict == dictionary.words(),
            texts(words@) + pending_order(b, dict, to_explore@) == goal,
            forall|k: int| 0 <= k < to_explore.len() ==> is_simple(#[trigger] to_explore@[k].locs())
                && to_explore@[k].locs().len() >= 1,
        decreases pending_size(to_explore@),
    {
        let ghost old_stack = to_explore@;
        let ghost old_words = words@;
        let prior_path = to_explore.pop().unwrap();
        let ghost base = to_explore@;
        let ghost path = prior_path.locs();
        let ghost exts = next_locs(path);
        proof {
            assert(old_stack.last() == prior_path);
            assert(old_stack.drop_last() == base);
            assert(is_simple(old_stack[old_stack.len() - 1].locs()));
            prior_path.lemma_locs_wf();
            assert(search_order(b, dict, path) == own_list(b, dict, path) + search_after(b, dict, path, exts));
            assert(tree_size(path) == 1 + size_after(path, exts));
        }
        let mut word = path_word(board, prior_path);
        if trie_exact_match(dictionary, word.as_str()) {
            words.push(word.clone());
            proof {
                lemma_texts_push(old_words, word);
            }
        }
        proof {
            assert(texts(words@) =~= texts(old_words) + own_list(b, dict, path));
            assert(texts(words@) + (search_after(b, dict, path, exts) + pending_order(b, dict, base)) =~= goal);
        }
        if prior_path.len() == 15 {
            proof {
                lemma_one_left(path);
            }
            let mut nexts = prior_path.valid_next_tiles();
            match nexts.next() {
                None => {
                    proof {
                        assert(exts.len() == 0);
                        assert(texts(words@) + pending_order(b, dict, to_explore@) =~= goal);
                    }
                    continue;
                },
                Some(tile) => {
                    let ghost before = words@;
                    word.append(board.index(tile).as_str());
                    let ghost child = path.push(tile.index_spec());
                    proof {
                        assert(exts.len() == 1);
                        assert(exts.drop_last() =~= Seq::<int>::empty());
                        assert(child.drop_last() =~= path);
                        assert(word@ == path_chars(b, child));
                        assert(exts.last() == tile.index_spec());
                        assert(search_after(b, dict, path, exts) == search_order(b, dict, child)
                            + search_after(b, dict, path, exts.drop_last()));
                        assert(search_after(b, dict, path, exts.drop_last()) == Seq::<Seq<char>>::empty());
                        assert(search_after(b, dict, path, exts) =~= search_order(b, dict, child));
                        assert(search_order(b, dict, child) == own_list(b, dict, child));
                    }
                    if trie_exact_match(dictionary, word.as_str()) {
                        words.push(word.clone());
                        proof {
                            lemma_texts_push(before, word);
                        }
                    }
                    proof {
                        assert(texts(words@) =~= texts(before) + own_list(b, dict, child));
                        assert(texts(words@) + pending_order(b, dict, to_explore@) =~= goal);
                    }
                    continue;
                },
            }
        }
        let posts = trie_postfixes(dictionary, word.as_str());
        let valid = leading_tiles(&posts);
        if valid.is_empty() {
            proof {
                assert forall|k: int| 0 <= k < exts.len() implies
                    search_order(b, dict, path.push(#[trigger] exts[k])) == Seq::<Seq<char>>::empty() by {
                    let q = exts[k];
                    let tq = tile_at(b, q);
                    lemma_tile_letters(tq);
                    assert(!valid@.contains(tile_number(tq) as usize));
                    lemma_pruned_order(b, dict, path, q, posts@);
                }
                lemma_search_after_empty(b, dict, path, exts);
                assert(texts(words@) + pending_order(b, dict, to_explore@) =~= goal);
            }
            continue;
        }
        let mut nexts = prior_path.valid_next_tiles();
        let ghost mut k: int = 0;
        loop
            invariant
                b == *board,
                dict == dictionary.words(),
                path == prior_path.locs(),
                path.len() < 15,
                is_simple(path),
                0 <= k <= exts.len(),
                nexts.remaining() == exts.subrange(k, exts.len() as int),
                exts == next_locs(path),
                forall|p: Seq<u8>| p.len() > 0 && #[trigger] dict.contains(encode_utf8(path_chars(b, path)) + p)
                    ==> exists|i: int| 0 <= i < posts.len() && posts[i]@ == p,
                forall|n: usize| n < 26 ==> (#[trigger] valid@.contains(n) <==> exists|i: int| 0 <= i < posts.len()
                    && leading_tile(#[trigger] posts[i]@) == Some(tile_of_number(n as int))),
                pending_order(b, dict, to_explore@) == search_after(b, dict, path, exts.subrange(0, k))
                    + pending_order(b, dict, base),
                pending_size(to_explore@) <= pending_size(base) + size_after(path, exts.subrange(0, k)),
                forall|j: int| 0 <= j < to_explore.len() ==> is_simple(#[trigger] to_explore@[j].locs())
                    && to_explore@[j].locs().len() >= 1,
            ensures
                pending_order(b, dict, to_explore@) == search_after(b, dict, path, exts)
                    + pending_order(b, dict, base),
                pending_size(to_explore@) <= pending_size(base) + size_after(path, exts),
            decreases exts.len() - k,
        {
            match nexts.next() {
                None => {
                    assert(exts.subrange(0, k) =~= exts);
                    break;
                },
                Some(tile) => {
                    let ghost q = tile.index_spec();
                    let ghost stack_before = to_explore@;
                    proof {
                        assert(q == exts[k]);
                        assert(exts.subrange(0, k + 1).drop_last() =~= exts.subrange(0, k));
                        assert(exts.subrange(0, k + 1).last() == q);
                    }
                    let t = board.index(tile);
                    proof {
                        lemma_tile_letters(*t);
                    }
                    if valid.contains(&t.number()) {
                        let mut next = prior_path;
                        next.push(tile);
                        to_explore.push(next);
                        proof {
                            assert(to_explore@.drop_last() =~= stack_before);
                            lemma_next_simple(path, k);
                            assert(next.locs() == path.push(q));
                            assert(pending_order(b, dict, to_explore@) =~= search_after(b, dict, path, exts.subrange(0, k + 1))
                                + pending_order(b, dict, base));
                            assert forall|j: int| 0 <= j < to_explore.len() implies is_simple(#[trigger] to_explore@[j].locs())
                                && to_explore@[j].locs().len() >= 1 by {
                                if j < stack_before.len() {
                                    assert(to_explore@[j] == stack_before[j]);
                                }
                            }
                        }
                    } else {
                        proof {
                            lemma_pruned_order(b, dict, path, q, posts@);
                            assert(search_after(b, dict, path, exts.subrange(0, k + 1)) =~= search_after(b, dict, path, exts.subrange(0, k)));
                        }
                    }
                    proof {
                        k = k + 1;
                        assert(nexts.remaining() =~= exts.subrange(k, exts.len() as int));
                    }
                },
            }
        }
        proof {
            assert(texts(words@) + pending_order(b, dict, to_explore@) =~= goal);
        }
    }
    proof {
        assert(to_explore@ =~= Seq::<BoardPath>::empty());
        assert(texts(words@) =~= goal);
        lemma_search_order_bag(b, dict, start.locs());
    }
    words
}


/// Whether each step of `path` goes to a neighbour of the location before it.
pub open spec fn is_walk(path: Seq<int>) -> bool {
    forall|i: int| 1 <= i < path.len() ==> adjacent(#[trigger] path[i - 1], path[i])
}

/// A path that visits each location once has at most 16 locations.
proof fn lemma_simple_len(path: Seq<int>)
    requires
        is_simple(path),
    ensures
        path.len() <= 16,
{
    path.unique_seq_to_set();
    lemma_int_range(0, 16);
    assert(path.to_set().subset_of(set_int_range(0, 16)));
    lemma_len_subset(path.to_set(), set_int_range(0, 16));
}

proof fn lemma_found_after_includes(b: Boggle, dict: Set<Seq<u8>>, path: Seq<int>, exts: Seq<int>, q: int, w: Seq<char>)
    requires
        exts.contains(q),
        path.len() < 16,
    ensures
        found_after(b, dict, path, exts).count(w) >= found_words(b, dict, path.push(q)).count(w),
    decreases exts.len(),
{
    if exts.last() != q {
        let k = choose|k: int| 0 <= k < exts.len() && exts[k] == q;
        assert(exts.drop_last()[k] == q);
        lemma_found_after_includes(b, dict, path, exts.drop_last(), q, w);
    }
}

/// Every dictionary word spelled along a walk `r` that visits each location
/// once and begins with `path` is among the words found from `path`.
pub proof fn lemma_found_words_complete(b: Boggle, dict: Set<Seq<u8>>, path: Seq<int>, r: Seq<int>)
    requires
        1 <= path.len() <= r.len(),
        r.subrange(0, path.len() as int) == path,
        is_simple(r),
        is_walk(r),
        in_dictionary(dict, encode_utf8(path_chars(b, r))),
    ensures
        found_words(b, dict, path).count(path_chars(b, r)) > 0,
    decreases r.len() - path.len(),
{
    if r.len() == path.len() {
        assert(r.subrange(0, path.len() as int) =~= r);
    } else {
        lemma_simple_len(r);
        let n = path.len() as int;
        let q = r[n];
        assert(path[n - 1] == r[n - 1]);
        assert(adjacent(r[n - 1], r[n]));
        assert(!path.contains(q)) by {
            if path.contains(q) {
                let k = choose|k: int| 0 <= k < path.len() && path[k] == q;
                assert(r[k] == q);
            }
        }
        assert(may_extend(path, q));
        crate::board::lemma_extensions_elems(path, 16);
        let e = extensions_below(path, 16);
        assert(e.contains(q));
        let k = choose|k: int| 0 <= k < e.len() && e[k] == q;
        assert(next_locs(path)[e.len() - 1 - k] == q);
        assert(next_locs(path).contains(q));
        let child = path.push(q);
        assert(r.subrange(0, n + 1) =~= child);
        lemma_found_words_complete(b, dict, child, r);
        lemma_found_after_includes(b, dict, path, next_locs(path), q, path_chars(b, r));
    }
}

} // verus!
