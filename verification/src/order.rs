//! Ordering of text the way `String`'s `Ord` orders it (by code point, a
//! prefix before its extensions), of tuples of text component by component,
//! and a stable sort by such keys.
use crate::text::vv;
use vstd::prelude::*;
use vstd::multiset::Multiset;
use vstd::seq_lib::to_multiset_build;
use vstd::seq_lib::to_multiset_remove;

verus! {

/// -1, 0 or 1 as `a` sorts before, with or after `b`.
pub open spec fn text_order(a: Seq<char>, b: Seq<char>) -> int
    decreases a.len(),
{
    if a.len() == 0 {
        if b.len() == 0 {
            0
        } else {
            -1
        }
    } else if b.len() == 0 {
        1
    } else if a[0] < b[0] {
        -1
    } else if a[0] > b[0] {
        1
    } else {
        text_order(a.drop_first(), b.drop_first())
    }
}

/// Tuples of text compared component by component.
pub open spec fn key_order(a: Seq<Seq<char>>, b: Seq<Seq<char>>) -> int
    decreases a.len(),
{
    if a.len() == 0 {
        if b.len() == 0 {
            0
        } else {
            -1
        }
    } else if b.len() == 0 {
        1
    } else if text_order(a[0], b[0]) != 0 {
        text_order(a[0], b[0])
    } else {
        key_order(a.drop_first(), b.drop_first())
    }
}

pub proof fn lemma_text_order(a: Seq<char>, b: Seq<char>)
    ensures
        -1 <= text_order(a, b) <= 1,
        text_order(a, b) == -text_order(b, a),
        text_order(a, b) == 0 <==> a == b,
    decreases a.len(),
{
    if a.len() > 0 && b.len() > 0 && a[0] == b[0] {
        lemma_text_order(a.drop_first(), b.drop_first());
        assert(a[0] == b[0]);
        if a.drop_first() == b.drop_first() {
            assert(a =~= seq![a[0]] + a.drop_first());
            assert(b =~= seq![b[0]] + b.drop_first());
        }
        if a == b {
            assert(a.drop_first() == b.drop_first());
        }
    } else if a.len() > 0 && b.len() > 0 {
        assert(a[0] != b[0]);
    } else if a.len() == 0 && b.len() == 0 {
        assert(a =~= b);
    }
}

pub proof fn lemma_text_order_trans(a: Seq<char>, b: Seq<char>, c: Seq<char>)
    requires
        text_order(a, b) <= 0,
        text_order(b, c) <= 0,
    ensures
        text_order(a, c) <= 0,
        text_order(a, b) < 0 || text_order(b, c) < 0 ==> text_order(a, c) < 0,
    decreases a.len(),
{
    if a.len() > 0 && b.len() > 0 && c.len() > 0 {
        if a[0] == b[0] && b[0] == c[0] {
            lemma_text_order_trans(a.drop_first(), b.drop_first(), c.drop_first());
        }
    }
}

pub proof fn lemma_key_order(a: Seq<Seq<char>>, b: Seq<Seq<char>>)
    ensures
        -1 <= key_order(a, b) <= 1,
        key_order(a, b) == -key_order(b, a),
    decreases a.len(),
{
    if a.len() > 0 && b.len() > 0 {
        lemma_text_order(a[0], b[0]);
        if text_order(a[0], b[0]) == 0 {
            lemma_key_order(a.drop_first(), b.drop_first());
        }
    }
}

pub proof fn lemma_key_order_trans(a: Seq<Seq<char>>, b: Seq<Seq<char>>, c: Seq<Seq<char>>)
    requires
        key_order(a, b) <= 0,
        key_order(b, c) <= 0,
    ensures
        key_order(a, c) <= 0,
    decreases a.len(),
{
    if a.len() > 0 && b.len() > 0 && c.len() > 0 {
        lemma_text_order(a[0], b[0]);
        lemma_text_order(b[0], c[0]);
        lemma_text_order(a[0], c[0]);
        if text_order(a[0], b[0]) == 0 && text_order(b[0], c[0]) == 0 {
            lemma_key_order_trans(a.drop_first(), b.drop_first(), c.drop_first());
        } else if text_order(a[0], b[0]) == 0 {
        } else if text_order(b[0], c[0]) == 0 {
        } else {
            lemma_text_order_trans(a[0], b[0], c[0]);
        }
    }
}

pub fn text_order_exec(a: &[char], b: &[char]) -> (r: i8)
    ensures
        r as int == text_order(a@, b@),
{
    let mut i: usize = 0;
    proof {
        assert(a@.skip(0) =~= a@);
        assert(b@.skip(0) =~= b@);
    }
    while i < a.len() && i < b.len() && a[i] == b[i]
        invariant
            0 <= i <= a.len(),
            i <= b.len(),
            text_order(a@, b@) == text_order(a@.skip(i as int), b@.skip(i as int)),
        decreases a.len() - i,
    {
        proof {
            assert(a@.skip(i as int).drop_first() =~= a@.skip(i + 1));
            assert(b@.skip(i as int).drop_first() =~= b@.skip(i + 1));
        }
        i += 1;
    }
    proof {
        if i < a.len() {
            assert(a@.skip(i as int)[0] == a@[i as int]);
        }
        if i < b.len() {
            assert(b@.skip(i as int)[0] == b@[i as int]);
        }
    }
    if i == a.len() {
        if i == b.len() {
            0
        } else {
            -1
        }
    } else if i == b.len() {
        1
    } else if a[i] < b[i] {
        -1
    } else {
        1
    }
}

pub fn key_order_exec(a: &Vec<Vec<char>>, b: &Vec<Vec<char>>) -> (r: i8)
    ensures
        r as int == key_order(vv(a@), vv(b@)),
{
    let ghost ga = vv(a@);
    let ghost gb = vv(b@);
    let mut i: usize = 0;
    proof {
        assert(ga.skip(0) =~= ga);
        assert(gb.skip(0) =~= gb);
    }
    while i < a.len() && i < b.len()
        invariant
            ga == vv(a@),
            gb == vv(b@),
            0 <= i <= a.len(),
            i <= b.len(),
            key_order(ga, gb) == key_order(ga.skip(i as int), gb.skip(i as int)),
        decreases a.len() - i,
    {
        let c = text_order_exec(&a[i], &b[i]);
        proof {
            assert(ga.skip(i as int)[0] == a@[i as int]@);
            assert(gb.skip(i as int)[0] == b@[i as int]@);
        }
        if c != 0 {
            return c;
        }
        proof {
            assert(ga.skip(i as int).drop_first() =~= ga.skip(i + 1));
            assert(gb.skip(i as int).drop_first() =~= gb.skip(i + 1));
        }
        i += 1;
    }
    if i == a.len() {
        if i == b.len() {
            0
        } else {
            -1
        }
    } else {
        1
    }
}

/// Values sorted by a tuple-of-text key.
pub trait SortKey {
    spec fn sort_key(&self) -> Seq<Seq<char>>;

    fn key(&self) -> (r: Vec<Vec<char>>)
        ensures
            vv(r@) == self.sort_key(),
    ;
}

/// `a` may come before `b`: ascending, or descending when `desc`.
pub open spec fn in_order(a: Seq<Seq<char>>, b: Seq<Seq<char>>, desc: bool) -> bool {
    if desc {
        key_order(b, a) <= 0
    } else {
        key_order(a, b) <= 0
    }
}

pub open spec fn sorted_by_key<T: SortKey>(s: Seq<T>, desc: bool) -> bool {
    forall|i: int, j: int|
        0 <= i < j < s.len() ==> in_order(#[trigger] s[i].sort_key(), #[trigger] s[j].sort_key(), desc)
}

/// Index of the first element that every other may follow.
fn first_extreme<T: SortKey>(items: &Vec<T>, desc: bool) -> (m: usize)
    requires
        items.len() > 0,
    ensures
        m < items.len(),
        forall|j: int| 0 <= j < items.len() ==> in_order(items@[m as int].sort_key(), #[trigger] items@[j].sort_key(), desc),
{
    let mut m: usize = 0;
    let mut mk = items[0].key();
    let mut j: usize = 1;
    proof {
        lemma_key_order(items@[0].sort_key(), items@[0].sort_key());
    }
    while j < items.len()
        invariant
            1 <= j <= items.len(),
            m < j,
            vv(mk@) == items@[m as int].sort_key(),
            forall|k: int| 0 <= k < j ==> in_order(items@[m as int].sort_key(), #[trigger] items@[k].sort_key(), desc),
        decreases items.len() - j,
    {
        let kj = items[j].key();
        let c = key_order_exec(&kj, &mk);
        let better = if desc {
            c > 0
        } else {
            c < 0
        };
        proof {
            lemma_key_order(items@[j as int].sort_key(), items@[m as int].sort_key());
        }
        if better {
            proof {
                assert forall|k: int| 0 <= k < j + 1 implies in_order(
                    items@[j as int].sort_key(),
                    #[trigger] items@[k].sort_key(),
                    desc,
                ) by {
                    if k < j {
                        if desc {
                            lemma_key_order_trans(items@[k].sort_key(), items@[m as int].sort_key(), items@[j as int].sort_key());
                        } else {
                            lemma_key_order_trans(items@[j as int].sort_key(), items@[m as int].sort_key(), items@[k].sort_key());
                        }
                    } else {
                        lemma_key_order(items@[j as int].sort_key(), items@[j as int].sort_key());
                    }
                }
            }
            m = j;
            mk = kj;
        }
        j += 1;
    }
    m
}

/// A stable sort by `T`'s key, ascending or (when `desc`) descending.
pub fn sort_by_key<T: SortKey>(items: Vec<T>, desc: bool) -> (r: Vec<T>)
    ensures
        r@.to_multiset() == items@.to_multiset(),
        r.len() == items.len(),
        sorted_by_key(r@, desc),
{
    let ghost orig = items@;
    let mut rest = items;
    let mut out: Vec<T> = Vec::new();
    proof {
        broadcast use vstd::seq_lib::group_to_multiset_ensures;
        assert(out@.to_multiset() =~= Multiset::empty());
        assert(out@.to_multiset().add(rest@.to_multiset()) =~= orig.to_multiset());
    }
    while rest.len() > 0
        invariant
            out@.to_multiset().add(rest@.to_multiset()) == orig.to_multiset(),
            out.len() + rest.len() == orig.len(),
            sorted_by_key(out@, desc),
            forall|i: int, j: int|
                0 <= i < out.len() && 0 <= j < rest.len() ==> in_order(
                    #[trigger] out@[i].sort_key(),
                    #[trigger] rest@[j].sort_key(),
                    desc,
                ),
        decreases rest.len(),
    {
        let m = first_extreme(&rest, desc);
        let ghost before_rest = rest@;
        let ghost before_out = out@;
        let x = rest.remove(m);
        proof {
            broadcast use vstd::seq_lib::group_to_multiset_ensures;
            to_multiset_remove(before_rest, m as int);
            assert(rest@ == before_rest.remove(m as int));
        }
        out.push(x);
        proof {
            broadcast use vstd::seq_lib::group_to_multiset_ensures;
            to_multiset_build(before_out, x);
            assert(out@ == before_out.push(x));
            assert(out@.to_multiset().add(rest@.to_multiset()) =~= orig.to_multiset());
            assert forall|i: int, j: int| 0 <= i < j < out.len() implies in_order(
                #[trigger] out@[i].sort_key(),
                #[trigger] out@[j].sort_key(),
                desc,
            ) by {
                if j == out.len() - 1 {
                    assert(out@[j] == before_rest[m as int]);
                    assert(in_order(before_out[i].sort_key(), before_rest[m as int].sort_key(), desc));
                } else {
                    assert(out@[i] == before_out[i]);
                    assert(out@[j] == before_out[j]);
                }
            }
            assert forall|i: int, j: int|
                0 <= i < out.len() && 0 <= j < rest.len() implies in_order(
                #[trigger] out@[i].sort_key(),
                #[trigger] rest@[j].sort_key(),
                desc,
            ) by {
                let jj = if j < m {
                    j
                } else {
                    j + 1
                };
                assert(rest@[j] == before_rest[jj]);
                if i == out.len() - 1 {
                    assert(out@[i] == before_rest[m as int]);
                } else {
                    assert(out@[i] == before_out[i]);
                }
            }
        }
    }
    proof {
        broadcast use vstd::seq_lib::group_to_multiset_ensures;
        assert(rest@.to_multiset() =~= Multiset::empty());
        assert(out@.to_multiset() =~= out@.to_multiset().add(rest@.to_multiset()));
    }
    out
}

} // verus!
