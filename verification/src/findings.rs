//! What the findings of an exhaustive check mean, said of keys, records and
//! links alone.

use vstd::prelude::*;

use crate::check::{
    audit, audit_children, body_fault, chain_fault, chain_limit, decimal, digit, frame_fault,
    gather, grown, law_acceptance, levels_fault, link_fault, records_fenced, same_fence,
    separators_fenced, tally, tree_fault, Tally, Violation,
};
use crate::order::lt;
use crate::page::{within, Body, Page};
use crate::records::{ascending, sorted};
use crate::shape::Pages;

verus! {

/// Two fences are the same when both are missing, or neither is less than the
/// other.
pub proof fn law_same_fence<K: Ord>(a: Option<K>, b: Option<K>)
    ensures
        same_fence(a, b) <==> (a is None && b is None) || (a is Some && b is Some && !lt(
            a->0,
            b->0,
        ) && !lt(b->0, a->0)),
{
}

/// The size of a page is at fault before its role, its role before its
/// minimum, and its minimum before that it was retired.
pub proof fn law_frame_fault<K, V, R>(p: Page<K, V, R>, n: int, is_root: bool)
    requires
        1 <= n,
    ensures
        ({
            let size = p.items().len() + p.keys().len();
            let few = match p.body {
                Body::Leaf(_) => size + 1 + size + 1 <= n,
                Body::Internal(_, _) => size + 1 + size + 1 < n,
                Body::Redirect(_) => false,
            };
            let fault = frame_fault(p, n, is_root);
            &&& fault == Some(Violation::Oversized) <==> size > n
            &&& fault == Some(Violation::RootRole) <==> size <= n && p.is_root != is_root
            &&& fault == Some(Violation::Underfull) <==> size <= n && p.is_root == is_root
                && !is_root && few
            &&& fault == Some(Violation::Retired) <==> p.is_root == is_root && p.body is Redirect
            &&& fault is None <==> size <= n && p.is_root == is_root && (is_root || !few)
                && p.body !is Redirect
        }),
{
}

/// The records of a leaf are at fault where two of them do not ascend, and
/// where they do, where one of them lies outside the fences.
pub proof fn law_leaf_fault<K: Ord, V, R>(p: Page<K, V, R>, is_root: bool)
    requires
        p.body is Leaf,
    ensures
        ({
            let s = p.items();
            let ordered = forall|i: int, j: int|
                0 <= i < j < s.len() ==> lt((#[trigger] s[i]).0, (#[trigger] s[j]).0);
            let fenced = forall|i: int|
                0 <= i < s.len() ==> (p.low is None || !lt((#[trigger] s[i]).0, p.low->0)) && (p.high
                    is None || lt(s[i].0, p.high->0));
            let fault = body_fault(p, is_root);
            &&& fault == Some(Violation::LeafOrder) <==> !ordered
            &&& fault == Some(Violation::LeafFence) <==> ordered && !fenced
            &&& fault is None <==> ordered && fenced
        }),
{
    let s = p.items();
    if records_fenced(p) {
        assert forall|i: int| 0 <= i < s.len() implies (p.low is None || !lt(
            (#[trigger] s[i]).0,
            p.low->0,
        )) && (p.high is None || lt(s[i].0, p.high->0)) by {
            assert(within(s[i].0, p.low, p.high));
        }
    }
    if forall|i: int|
        0 <= i < s.len() ==> (p.low is None || !lt((#[trigger] s[i]).0, p.low->0)) && (p.high is None
            || lt(s[i].0, p.high->0)) {
        assert(records_fenced(p));
    }
    assert(sorted(s) <==> forall|i: int, j: int|
        0 <= i < j < s.len() ==> lt((#[trigger] s[i]).0, (#[trigger] s[j]).0));
}

/// An internal page is at fault where it does not have one more child than
/// separators; then where it is a root that parts nothing; then where two
/// separators do not ascend; then where one of them lies outside the fences.
pub proof fn law_internal_fault<K: Ord, V, R>(p: Page<K, V, R>, is_root: bool)
    requires
        p.body is Internal,
    ensures
        ({
            let k = p.keys();
            let matched = p.children().len() == k.len() + 1;
            let parts = !is_root || k.len() > 0;
            let ordered = forall|i: int, j: int|
                0 <= i < j < k.len() ==> lt(#[trigger] k[i], #[trigger] k[j]);
            let fenced = forall|i: int|
                0 <= i < k.len() ==> (p.low is None || !lt(#[trigger] k[i], p.low->0)) && (p.high
                    is None || lt(k[i], p.high->0));
            let fault = body_fault(p, is_root);
            &&& fault == Some(Violation::Cardinality) <==> !matched
            &&& fault == Some(Violation::EmptyRoot) <==> matched && !parts
            &&& fault == Some(Violation::SeparatorOrder) <==> matched && parts && !ordered
            &&& fault == Some(Violation::SeparatorFence) <==> matched && parts && ordered
                && !fenced
            &&& fault is None <==> matched && parts && ordered && fenced
        }),
{
    let k = p.keys();
    if separators_fenced(p) {
        assert forall|i: int| 0 <= i < k.len() implies (p.low is None || !lt(
            #[trigger] k[i],
            p.low->0,
        )) && (p.high is None || lt(k[i], p.high->0)) by {
            assert(within(k[i], p.low, p.high));
        }
    }
    if forall|i: int|
        0 <= i < k.len() ==> (p.low is None || !lt(#[trigger] k[i], p.low->0)) && (p.high is None
            || lt(k[i], p.high->0)) {
        assert(separators_fenced(p));
    }
    assert(ascending(k) <==> forall|i: int, j: int|
        0 <= i < j < k.len() ==> lt(#[trigger] k[i], #[trigger] k[j]));
}

/// The first page of a level must have neither a lower fence nor a predecessor.
pub proof fn law_leftmost_fault<K: Ord, V>(pages: Pages<K, V>, id: usize)
    requires
        id < pages.len(),
    ensures
        ({
            let p = pages[id as int];
            let fault = link_fault(pages, id, None);
            &&& fault == Some(Violation::ChainRetired) <==> p.body is Redirect
            &&& fault == Some(Violation::LeftmostFence) <==> p.body !is Redirect && !(p.low is None
                && p.previous is None)
            &&& fault is None <==> p.body !is Redirect && p.low is None && p.previous is None
        }),
{
}

/// A page behind another must open where that one closes, and name it as its
/// predecessor.
pub proof fn law_sibling_fault<K: Ord, V>(pages: Pages<K, V>, before: usize, id: usize)
    requires
        id < pages.len(),
    ensures
        ({
            let p = pages[id as int];
            let high = pages[before as int].high;
            let meets = (high is None && p.low is None) || (high is Some && p.low is Some && !lt(
                high->0,
                p.low->0,
            ) && !lt(p.low->0, high->0));
            let fault = link_fault(pages, id, Some(before));
            &&& fault == Some(Violation::ChainRetired) <==> p.body is Redirect
            &&& fault == Some(Violation::SiblingFence) <==> p.body !is Redirect && !meets
            &&& fault == Some(Violation::LostPredecessor) <==> p.body !is Redirect && meets
                && p.previous is None
            &&& fault == Some(Violation::WrongPredecessor) <==> p.body !is Redirect && meets
                && p.previous is Some && p.previous != Some(before)
            &&& fault is None <==> p.body !is Redirect && meets && p.previous == Some(before)
        }),
{
}

/// A link that leads to no page is found as such, before anything else.
pub proof fn law_dangling<K: Ord, V>(
    pages: Pages<K, V>,
    n: int,
    id: usize,
    previous: Option<usize>,
    is_root: bool,
    depth: nat,
    seen: Tally,
    limit: nat,
    len: nat,
)
    requires
        id >= pages.len(),
        limit > 0,
    ensures
        link_fault(pages, id, previous) == Some(Violation::Dangling),
        chain_fault(pages, id, previous, limit) == Some(Violation::Dangling),
        audit(pages, n, id, is_root, depth, seen, limit) == Err::<Tally, Violation>(
            Violation::Dangling,
        ),
        tree_fault(pages, n, id, len) == Some(Violation::Dangling),
{
}

/// The fault of a chain is that of the first of its pages that has one. Without
/// one the last page must close nowhere, and a chain that does not come to a
/// last page within its limit has a cycle.
pub proof fn law_chain_fault<K: Ord, V>(
    pages: Pages<K, V>,
    row: Seq<usize>,
    previous: Option<usize>,
    limit: nat,
)
    requires
        row.len() > 0,
        row.len() <= limit + 1,
        forall|j: int|
            0 <= j < row.len() - 1 ==> pages[#[trigger] row[j] as int].right == Some(row[j + 1]),
        forall|j: int|
            0 <= j < row.len() - 1 ==> link_fault(
                pages,
                #[trigger] row[j],
                if j == 0 {
                    previous
                } else {
                    Some(row[j - 1])
                },
            ) is None,
    ensures
        ({
            let last = row.last();
            let before = if row.len() == 1 {
                previous
            } else {
                Some(row[row.len() - 2])
            };
            let fault = chain_fault(pages, row[0], previous, limit);
            &&& row.len() == limit + 1 ==> fault == Some(Violation::ChainCycle)
            &&& row.len() <= limit && link_fault(pages, last, before) is Some ==> fault
                == link_fault(pages, last, before)
            &&& row.len() <= limit && link_fault(pages, last, before) is None
                && pages[last as int].right is None ==> fault == (if pages[last as int].high
                is Some {
                Some(Violation::RightmostFence)
            } else {
                None
            })
        }),
    decreases row.len(),
{
    if row.len() > 1 {
        let rest = row.drop_first();
        assert(pages[row[0] as int].right == Some(row[1]));
        assert(link_fault(pages, row[0], previous) is None);
        assert forall|j: int| 0 <= j < rest.len() - 1 implies pages[#[trigger] rest[j] as int].right
            == Some(rest[j + 1]) by {
            assert(rest[j] == row[j + 1]);
        }
        assert forall|j: int| 0 <= j < rest.len() - 1 implies link_fault(
            pages,
            #[trigger] rest[j],
            if j == 0 {
                Some(row[0])
            } else {
                Some(rest[j - 1])
            },
        ) is None by {
            assert(rest[j] == row[j + 1]);
        }
        assert(rest.last() == row.last());
        law_chain_fault(pages, rest, Some(row[0]), (limit - 1) as nat);
    }
}

/// The first level whose chain is at fault decides. A level above the last must
/// start with an internal page, and the next one starts at the first child of
/// that page.
pub proof fn law_levels_fault<K: Ord, V>(
    pages: Pages<K, V>,
    start: usize,
    limit: nat,
    height: nat,
)
    requires
        height > 0,
    ensures
        ({
            let p = pages[start as int];
            let chain = chain_fault(pages, start, None, limit);
            let fault = levels_fault(pages, start, limit, height);
            &&& chain is Some ==> fault == chain
            &&& chain is None && height == 1 ==> fault is None
            &&& chain is None && height > 1 && p.body !is Internal ==> fault == Some(
                Violation::HeightExceeded,
            )
            &&& chain is None && height > 1 && p.body is Internal && p.children().len() == 0
                ==> fault == Some(Violation::Cardinality)
            &&& chain is None && height > 1 && p.body is Internal && p.children().len() > 0
                ==> fault == levels_fault(pages, p.children()[0], limit, (height - 1) as nat)
        }),
        levels_fault(pages, start, limit, 0) is None,
{
}

/// A path that is longer than allowed is found as such. A leaf whose records
/// cannot be counted any more is found as such when nothing else is at fault.
pub proof fn law_limits<K: Ord, V>(
    pages: Pages<K, V>,
    n: int,
    id: usize,
    is_root: bool,
    depth: nat,
    seen: Tally,
    fuel: nat,
)
    ensures
        audit(pages, n, id, is_root, depth, seen, 0) == Err::<Tally, Violation>(
            Violation::Endless,
        ),
        fuel > 0 && id < pages.len() && pages[id as int].body is Leaf && frame_fault(
            pages[id as int],
            n,
            is_root,
        ) is None && body_fault(pages[id as int], is_root) is None && (seen.leaf_depth is None
            || seen.leaf_depth->0 == depth) ==> audit(pages, n, id, is_root, depth, seen, fuel) == (
        if seen.count + pages[id as int].items().len() > usize::MAX {
            Err::<Tally, Violation>(Violation::Uncountable)
        } else {
            Ok::<Tally, Violation>(
                Tally {
                    leaf_depth: Some(depth),
                    count: seen.count + pages[id as int].items().len(),
                },
            )
        }),
{
}

/// A chain may have as many pages as there are records and levels, and two
/// more, as far as that can be counted.
pub proof fn law_chain_limit(len: nat, height: nat)
    ensures
        chain_limit(len, height) <= len + height + 2,
        chain_limit(len, height) <= usize::MAX,
        chain_limit(len, height) == len + height + 2 || chain_limit(len, height) == usize::MAX,
{
}

/// The root is at fault where it has a fence or a sibling; then where it is not
/// marked as root; then where it was retired.
pub proof fn law_root_fault<K: Ord, V>(pages: Pages<K, V>, n: int, root: usize, len: nat)
    requires
        root < pages.len(),
    ensures
        ({
            let p = pages[root as int];
            let alone = p.low is None && p.high is None && p.previous is None && p.right is None;
            let fault = tree_fault(pages, n, root, len);
            &&& !alone ==> fault == Some(Violation::RootFence)
            &&& alone && !p.is_root ==> fault == Some(Violation::RootUnmarked)
            &&& alone && p.is_root && p.body is Redirect ==> fault == Some(Violation::RootRetired)
        }),
{
}

/// A tree whose pages pass is miscounted exactly when its counter is not the
/// number of its records, and the finding gives both.
pub proof fn law_miscounted<K: Ord, V>(pages: Pages<K, V>, n: int, root: usize, len: usize)
    requires
        root < pages.len(),
        pages[root as int].low is None && pages[root as int].high is None,
        pages[root as int].previous is None && pages[root as int].right is None,
        audit(pages, n, root, true, 0, tally(None, 0), pages.len()) is Ok,
    ensures
        ({
            let records = gather(pages, root, pages.len());
            let fault = tree_fault(pages, n, root, len as nat);
            &&& records.len() <= usize::MAX
            &&& records.len() != len ==> fault == Some(
                Violation::Miscounted { counted: records.len() as usize, len },
            )
            &&& records.len() == len ==> !(fault is Some && fault->0 is Miscounted)
        }),
{
    let seen = tally(None, 0);
    law_acceptance(pages, n, root, true, 0, seen, pages.len());
    let height = choose|height: nat| #[trigger]
        grown(pages, n, root, true, height) && height < pages.len();
    assert(grown(pages, n, root, true, height));
    let len = len as nat;
    if gather(pages, root, pages.len()).len() == len {
        lemma_levels_uncounted(pages, root, chain_limit(len, height + 1), height + 1);
    }
}

/// Sibling chains are never miscounted.
proof fn lemma_levels_uncounted<K: Ord, V>(
    pages: Pages<K, V>,
    start: usize,
    limit: nat,
    height: nat,
)
    ensures
        levels_fault(pages, start, limit, height) matches Some(v) ==> v !is Miscounted,
    decreases height,
{
    if height > 0 {
        lemma_chain_uncounted(pages, start, None, limit);
        if let Body::Internal(_, c) = pages[start as int].body {
            lemma_levels_uncounted(pages, c[0], limit, (height - 1) as nat);
        }
    }
}

proof fn lemma_chain_uncounted<K: Ord, V>(
    pages: Pages<K, V>,
    id: usize,
    previous: Option<usize>,
    limit: nat,
)
    ensures
        chain_fault(pages, id, previous, limit) matches Some(v) ==> v !is Miscounted,
    decreases limit,
{
    if limit > 0 {
        if let Some(next) = pages[id as int].right {
            lemma_chain_uncounted(pages, next, Some(id), (limit - 1) as nat);
        }
    }
}

/// A page that is at fault itself is found at fault for that, before any page
/// below it.
pub proof fn law_page_before_children<K: Ord, V>(
    pages: Pages<K, V>,
    n: int,
    id: usize,
    is_root: bool,
    depth: nat,
    seen: Tally,
    fuel: nat,
)
    requires
        id < pages.len(),
        fuel > 0,
    ensures
        ({
            let p = pages[id as int];
            let result = audit(pages, n, id, is_root, depth, seen, fuel);
            &&& frame_fault(p, n, is_root) matches Some(v) ==> result == Err::<Tally, Violation>(v)
            &&& frame_fault(p, n, is_root) is None && p.body is Leaf && (seen.leaf_depth is Some
                && seen.leaf_depth->0 != depth) ==> result == Err::<Tally, Violation>(
                Violation::LeafDepth,
            )
            &&& frame_fault(p, n, is_root) is None && (p.body is Leaf ==> (seen.leaf_depth is None
                || seen.leaf_depth->0 == depth)) ==> (body_fault(p, is_root) matches Some(v)
                ==> result == Err::<Tally, Violation>(v))
        }),
{
}

/// The children of a page are looked at from the first to the last: the first
/// of them whose fences are not the bounds that the page gives it, or below
/// which something is at fault, decides.
pub proof fn law_first_child_decides<K: Ord, V>(
    pages: Pages<K, V>,
    n: int,
    p: Page<K, V, usize>,
    i: int,
    depth: nat,
    seen: Tally,
    fuel: nat,
)
    requires
        0 <= i < p.children().len(),
        p.children()[i] < pages.len(),
        fuel > 0,
    ensures
        ({
            let id = p.children()[i];
            let child = pages[id as int];
            let below = audit(pages, n, id, false, depth + 1, seen, (fuel - 1) as nat);
            let joined = same_fence(child.low, p.child_low(i)) && same_fence(
                child.high,
                p.child_high(i),
            );
            let result = audit_children(pages, n, p, i, depth, seen, fuel);
            &&& !joined ==> result == Err::<Tally, Violation>(Violation::ChildFence)
            &&& joined && below is Err ==> result == below
            &&& joined && below is Ok ==> result == audit_children(
                pages,
                n,
                p,
                i + 1,
                depth,
                below->Ok_0,
                fuel,
            )
        }),
        p.children().len() == i + 1 ==> forall|next: Tally| #[trigger]
            audit_children(pages, n, p, i + 1, depth, next, fuel) == Ok::<Tally, Violation>(next),
{
}

/// The number that is written with these digits.
pub open spec fn number(text: Seq<char>) -> int
    decreases text.len(),
{
    if text.len() == 0 {
        0
    } else {
        number(text.drop_last()) * 10 + (text.last() as int - '0' as int)
    }
}

/// A digit is written as one of the ten characters, which follow each other.
proof fn lemma_digit(d: usize)
    requires
        d < 10,
    ensures
        digit(d).len() == 1,
        digit(d)[0] as int == '0' as int + d,
{
    reveal_strlit("0");
    reveal_strlit("1");
    reveal_strlit("2");
    reveal_strlit("3");
    reveal_strlit("4");
    reveal_strlit("5");
    reveal_strlit("6");
    reveal_strlit("7");
    reveal_strlit("8");
    reveal_strlit("9");
}

/// What is written for a number is that number in decimal digits, without
/// leading zeros.
pub proof fn law_decimal(n: usize)
    ensures
        decimal(n).len() > 0,
        forall|i: int|
            0 <= i < decimal(n).len() ==> '0' as int <= #[trigger] decimal(n)[i] as int <= '9' as int,
        decimal(n)[0] == '0' ==> n == 0 && decimal(n).len() == 1,
        number(decimal(n)) == n,
    decreases n,
{
    let text = decimal(n);
    if n < 10 {
        lemma_digit(n);
        assert(text.drop_last() =~= Seq::empty());
        assert(number(text.drop_last()) == 0);
    } else {
        let init = decimal(n / 10);
        law_decimal(n / 10);
        lemma_digit(n % 10);
        assert(text.drop_last() =~= init);
        assert(text.last() == digit(n % 10)[0]);
        assert(text[0] == init[0]);
        assert forall|i: int| 0 <= i < text.len() implies '0' as int <= #[trigger] text[i] as int
            <= '9' as int by {
            if i < init.len() {
                assert(text[i] == init[i]);
            }
        }
    }
}

} // verus!
