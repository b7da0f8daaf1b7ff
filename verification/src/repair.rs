//! What repairing the sibling links after a split or a merge does to the pages
//! of a store.
//!
//! Both repairs run after the change that called for them, so the pages around
//! may have been split or retired in the meantime. They look for the page that
//! is concerned by now, and do not return where there is none to be found.

use vstd::prelude::*;

use crate::node::{models, LinkPass, LinkRepair, MergeRepair, Node};
use crate::page::{Body, Page};
use crate::shape::Pages;

verus! {

/// The first active page on the way from `id` along forwarding links, found in
/// at most `steps` steps. The way must not come to `from`.
pub open spec fn forward_end<K, V>(
    pages: Pages<K, V>,
    from: usize,
    id: usize,
    steps: nat,
) -> Option<usize>
    decreases steps,
{
    if steps == 0 || id >= pages.len() || id == from {
        None
    } else if let Body::Redirect(next) = pages[id as int].body {
        forward_end(pages, from, next, (steps - 1) as nat)
    } else {
        Some(id)
    }
}

/// Whether the way from `id` along forwarding links comes to an active page.
pub open spec fn ends_active<K, V>(pages: Pages<K, V>, from: usize, id: usize) -> bool {
    exists|steps: nat| #[trigger] forward_end(pages, from, id, steps) is Some
}

/// The active page at the end of the way from `id` along forwarding links.
pub open spec fn active_behind<K, V>(pages: Pages<K, V>, from: usize, id: usize) -> usize {
    forward_end(
        pages,
        from,
        id,
        choose|steps: nat| #[trigger] forward_end(pages, from, id, steps) is Some,
    )->0
}

/// The way along forwarding links has one end.
pub proof fn law_one_forward_end<K, V>(
    pages: Pages<K, V>,
    from: usize,
    id: usize,
    a: nat,
    b: nat,
)
    requires
        forward_end(pages, from, id, a) is Some,
        forward_end(pages, from, id, b) is Some,
    ensures
        forward_end(pages, from, id, a) == forward_end(pages, from, id, b),
        forward_end(pages, from, id, a) == Some(active_behind(pages, from, id)),
{
    lemma_one_forward_end(pages, from, id, a, b);
    let c = choose|steps: nat| #[trigger] forward_end(pages, from, id, steps) is Some;
    lemma_one_forward_end(pages, from, id, a, c);
}

proof fn lemma_one_forward_end<K, V>(pages: Pages<K, V>, from: usize, id: usize, a: nat, b: nat)
    requires
        forward_end(pages, from, id, a) is Some,
        forward_end(pages, from, id, b) is Some,
    ensures
        forward_end(pages, from, id, a) == forward_end(pages, from, id, b),
    decreases a,
{
    if let Body::Redirect(next) = pages[id as int].body {
        lemma_one_forward_end(pages, from, next, (a - 1) as nat, (b - 1) as nat);
    }
}

/// Retired pages that forward to each other in a row lead to the active page
/// behind the last of them.
pub proof fn law_forwarding_row<K, V>(pages: Pages<K, V>, from: usize, row: Seq<usize>)
    requires
        row.len() > 0,
        forall|i: int|
            0 <= i < row.len() ==> #[trigger] row[i] < pages.len() && row[i] != from,
        forall|i: int|
            0 <= i < row.len() - 1 ==> pages[#[trigger] row[i] as int].body == Body::<
                K,
                V,
                usize,
            >::Redirect(row[i + 1]),
        pages[row.last() as int].body !is Redirect,
    ensures
        forward_end(pages, from, row[0], row.len()) == Some(row.last()),
        ends_active(pages, from, row[0]),
        active_behind(pages, from, row[0]) == row.last(),
{
    lemma_forwarding_row(pages, from, row);
    law_one_forward_end(pages, from, row[0], row.len(), row.len());
}

proof fn lemma_forwarding_row<K, V>(pages: Pages<K, V>, from: usize, row: Seq<usize>)
    requires
        row.len() > 0,
        forall|i: int|
            0 <= i < row.len() ==> #[trigger] row[i] < pages.len() && row[i] != from,
        forall|i: int|
            0 <= i < row.len() - 1 ==> pages[#[trigger] row[i] as int].body == Body::<
                K,
                V,
                usize,
            >::Redirect(row[i + 1]),
        pages[row.last() as int].body !is Redirect,
    ensures
        forward_end(pages, from, row[0], row.len()) == Some(row.last()),
    decreases row.len(),
{
    assert(row[0] < pages.len());
    if row.len() > 1 {
        let rest = row.drop_first();
        assert forall|i: int| 0 <= i < rest.len() - 1 implies pages[#[trigger] rest[i] as int].body
            == Body::<K, V, usize>::Redirect(rest[i + 1]) by {
            assert(rest[i] == row[i + 1]);
        }
        lemma_forwarding_row(pages, from, rest);
        assert(pages[row[0] as int].body == Body::<K, V, usize>::Redirect(row[1]));
    }
}

/// Whether the page at `id` is active and leads to `successor`.
pub open spec fn still_leads<K, V>(pages: Pages<K, V>, id: usize, successor: Option<usize>) -> bool {
    &&& successor is Some
    &&& pages[id as int].body !is Redirect
    &&& pages[id as int].right == successor
}

/// The pages after the page at `new_right`, which a split made, was named as
/// the predecessor of the active page behind it. A page that leads elsewhere
/// by now is left to the change that led it there.
pub open spec fn backlink_repaired<K, V>(
    pages: Pages<K, V>,
    new_right: usize,
    old_successor: Option<usize>,
) -> Pages<K, V> {
    if still_leads(pages, new_right, old_successor) {
        let s = active_behind(pages, new_right, old_successor->0);
        pages.update(
            new_right as int,
            Page { right: Some(s), ..pages[new_right as int] },
        ).update(s as int, Page { previous: Some(new_right), ..pages[s as int] })
    } else {
        pages
    }
}

/// After the repair of a split the page that it made and the active page behind
/// it lead to each other, and nothing but these two links is changed. A page
/// that leads elsewhere is left alone, and so are all others.
pub proof fn law_backlink_joins<K, V>(
    pages: Pages<K, V>,
    new_right: usize,
    old_successor: Option<usize>,
)
    requires
        new_right < pages.len(),
        still_leads(pages, new_right, old_successor) ==> ends_active(
            pages,
            new_right,
            old_successor->0,
        ),
    ensures
        ({
            let after = backlink_repaired(pages, new_right, old_successor);
            let p = pages[new_right as int];
            let leads = old_successor is Some && p.right == old_successor && p.body !is Redirect;
            &&& !leads ==> after == pages
            &&& leads ==> {
                &&& after.len() == pages.len()
                &&& after[new_right as int].right is Some
                &&& ({
                    let s = after[new_right as int].right->0;
                    &&& s < pages.len()
                    &&& s != new_right
                    &&& pages[s as int].body !is Redirect
                    &&& pages[old_successor->0 as int].body !is Redirect ==> s == old_successor->0
                    &&& after[s as int] == (Page {
                        previous: Some(new_right),
                        ..pages[s as int]
                    })
                    &&& after[new_right as int] == (Page { right: Some(s), ..p })
                    &&& forall|k: int|
                        0 <= k < pages.len() && k != s && k != new_right ==> #[trigger] after[k]
                            == pages[k]
                })
            }
        }),
{
    if still_leads(pages, new_right, old_successor) {
        let id = old_successor->0;
        let steps = choose|steps: nat| #[trigger]
            forward_end(pages, new_right, id, steps) is Some;
        lemma_forward_end(pages, new_right, id, steps);
    }
}

/// The way along forwarding links ends at an active page, other than the one it
/// must not come to.
proof fn lemma_forward_end<K, V>(pages: Pages<K, V>, from: usize, id: usize, steps: nat)
    requires
        forward_end(pages, from, id, steps) is Some,
    ensures
        ({
            let end = forward_end(pages, from, id, steps)->0;
            &&& end < pages.len()
            &&& end != from
            &&& pages[end as int].body !is Redirect
            &&& pages[id as int].body !is Redirect ==> end == id
        }),
    decreases steps,
{
    if let Body::Redirect(next) = pages[id as int].body {
        lemma_forward_end(pages, from, next, (steps - 1) as nat);
    }
}

/// What one step of the search for the page that leads to a retired page
/// comes to.
pub enum Walk<K, V> {
    /// The link was repaired, with these pages as the outcome.
    Ended(Pages<K, V>),
    /// The search goes on at a page.
    At(Pages<K, V>, usize),
    /// The search would wait for a page that it holds itself, or for none.
    Stuck,
}

/// One step of the search, at the page `cursor`, for the page that leads to
/// `retired`, which was merged into `survivor`.
pub open spec fn walk_step<K, V>(
    pages: Pages<K, V>,
    cursor: usize,
    retired: usize,
    survivor: usize,
) -> Walk<K, V> {
    let page = pages[cursor as int];
    if cursor >= pages.len() || survivor >= pages.len() {
        Walk::Stuck
    } else if let Body::Redirect(target) = page.body {
        // A retired page knows of an earlier one to start from again.
        Walk::At(
            pages,
            match page.previous {
                Some(earlier) => earlier,
                None => target,
            },
        )
    } else {
        match page.right {
            None => {
                // Nothing leads to the survivor: it is the leftmost page.
                Walk::Ended(
                    pages.update(
                        survivor as int,
                        Page { previous: None, ..pages[survivor as int] },
                    ),
                )
            },
            Some(next) => if next == retired || next == survivor {
                if cursor == survivor {
                    Walk::Stuck
                } else if let Body::Redirect(target) = pages[survivor as int].body {
                    Walk::At(
                        pages.update(cursor as int, Page { right: Some(target), ..page }),
                        if next == retired {
                            target
                        } else {
                            cursor
                        },
                    )
                } else {
                    Walk::Ended(joined(pages, cursor, survivor))
                }
            } else if next >= pages.len() || next == cursor {
                Walk::Stuck
            } else if let Body::Redirect(target) = pages[next as int].body {
                if target == survivor && pages[survivor as int].body !is Redirect {
                    if cursor == survivor {
                        Walk::Stuck
                    } else {
                        Walk::Ended(joined(pages, cursor, survivor))
                    }
                } else {
                    Walk::At(
                        pages.update(cursor as int, Page { right: Some(target), ..page }),
                        cursor,
                    )
                }
            } else {
                Walk::At(pages, next)
            },
        }
    }
}

/// The pages after two of them were linked to each other.
pub open spec fn joined<K, V>(pages: Pages<K, V>, left: usize, right: usize) -> Pages<K, V> {
    pages.update(left as int, Page { right: Some(right), ..pages[left as int] }).update(
        right as int,
        Page { previous: Some(left), ..pages[right as int] },
    )
}

/// The outcome of the search from `cursor`, where it ends in at most `steps`
/// steps.
pub open spec fn walk<K, V>(
    pages: Pages<K, V>,
    cursor: usize,
    retired: usize,
    survivor: usize,
    steps: nat,
) -> Option<Pages<K, V>>
    decreases steps,
{
    if steps == 0 {
        None
    } else {
        match walk_step(pages, cursor, retired, survivor) {
            Walk::Ended(after) => Some(after),
            Walk::At(after, next) => walk(after, next, retired, survivor, (steps - 1) as nat),
            Walk::Stuck => None,
        }
    }
}

/// Whether the search from `cursor` ends.
pub open spec fn walk_ends<K, V>(
    pages: Pages<K, V>,
    cursor: usize,
    retired: usize,
    survivor: usize,
) -> bool {
    exists|steps: nat| #[trigger] walk(pages, cursor, retired, survivor, steps) is Some
}

/// Whether the repair after a merge ends.
pub open spec fn repair_ends<K, V>(pages: Pages<K, V>, repair: MergeRepair<usize>) -> bool {
    match repair.predecessor {
        None => true,
        Some(cursor) => walk_ends(pages, cursor, repair.retired, repair.survivor),
    }
}

/// The pages after the repair of a merge: what the search from the recorded
/// predecessor comes to, or the survivor without a predecessor where none was
/// recorded.
pub open spec fn link_repaired<K, V>(
    pages: Pages<K, V>,
    repair: MergeRepair<usize>,
) -> Pages<K, V> {
    match repair.predecessor {
        None => pages.update(
            repair.survivor as int,
            Page { previous: None, ..pages[repair.survivor as int] },
        ),
        Some(cursor) => walk(
            pages,
            cursor,
            repair.retired,
            repair.survivor,
            choose|steps: nat| #[trigger]
                walk(pages, cursor, repair.retired, repair.survivor, steps) is Some,
        )->0,
    }
}

proof fn lemma_one_outcome<K, V>(
    pages: Pages<K, V>,
    cursor: usize,
    retired: usize,
    survivor: usize,
    a: nat,
    b: nat,
)
    requires
        walk(pages, cursor, retired, survivor, a) is Some,
        walk(pages, cursor, retired, survivor, b) is Some,
    ensures
        walk(pages, cursor, retired, survivor, a) == walk(pages, cursor, retired, survivor, b),
    decreases a,
{
    if let Walk::At(after, next) = walk_step(pages, cursor, retired, survivor) {
        lemma_one_outcome(after, next, retired, survivor, (a - 1) as nat, (b - 1) as nat);
    }
}

/// The search has one outcome, however many steps it is given.
pub proof fn law_one_outcome<K, V>(pages: Pages<K, V>, repair: MergeRepair<usize>, steps: nat)
    requires
        repair.predecessor is Some,
        walk(pages, repair.predecessor->0, repair.retired, repair.survivor, steps) is Some,
    ensures
        repair_ends(pages, repair),
        walk(pages, repair.predecessor->0, repair.retired, repair.survivor, steps) == Some(
            link_repaired(pages, repair),
        ),
{
    let cursor = repair.predecessor->0;
    let c = choose|n: nat| #[trigger]
        walk(pages, cursor, repair.retired, repair.survivor, n) is Some;
    lemma_one_outcome(pages, cursor, repair.retired, repair.survivor, steps, c);
}

/// How the repair of a merge goes on from a page. A retired page sends it to
/// the predecessor it knew, or to where it forwards. Behind an active page
/// without a successor nothing leads to the survivor, which then has no
/// predecessor. An active page that leads to the retired page or to its
/// survivor is linked to the survivor, past where that forwards by now. Other
/// retired pages are compacted away, and other active ones are passed.
pub proof fn law_repair_step<K, V>(
    pages: Pages<K, V>,
    cursor: usize,
    retired: usize,
    survivor: usize,
    steps: nat,
)
    requires
        steps > 0,
        cursor < pages.len(),
        survivor < pages.len(),
        cursor != survivor,
    ensures
        ({
            let p = pages[cursor as int];
            let s = pages[survivor as int];
            let outcome = walk(pages, cursor, retired, survivor, steps);
            let left = (steps - 1) as nat;
            match (p.body, p.right) {
                (Body::Redirect(target), _) => outcome == walk(
                    pages,
                    if p.previous is Some {
                        p.previous->0
                    } else {
                        target
                    },
                    retired,
                    survivor,
                    left,
                ),
                (_, None) => outcome == Some(
                    pages.update(survivor as int, Page { previous: None, ..s }),
                ),
                (_, Some(next)) => {
                    let bound = next == retired || next == survivor;
                    &&& bound && s.body !is Redirect ==> outcome == Some(
                        pages.update(
                            cursor as int,
                            Page { right: Some(survivor), ..p },
                        ).update(survivor as int, Page { previous: Some(cursor), ..s }),
                    )
                    &&& bound && s.body is Redirect ==> outcome == walk(
                        pages.update(cursor as int, Page { right: Some(s.body->Redirect_0), ..p }),
                        if next == retired {
                            s.body->Redirect_0
                        } else {
                            cursor
                        },
                        retired,
                        survivor,
                        left,
                    )
                    &&& !bound && next < pages.len() && next != cursor
                        && pages[next as int].body !is Redirect ==> outcome == walk(
                        pages,
                        next,
                        retired,
                        survivor,
                        left,
                    )
                    &&& !bound && next < pages.len() && next != cursor
                        && pages[next as int].body is Redirect ==> {
                        let target = pages[next as int].body->Redirect_0;
                        if target == survivor && s.body !is Redirect {
                            outcome == Some(
                                pages.update(
                                    cursor as int,
                                    Page { right: Some(survivor), ..p },
                                ).update(survivor as int, Page { previous: Some(cursor), ..s }),
                            )
                        } else {
                            outcome == walk(
                                pages.update(
                                    cursor as int,
                                    Page { right: Some(target), ..p },
                                ),
                                cursor,
                                retired,
                                survivor,
                                left,
                            )
                        }
                    }
                },
            }
        }),
{
}

/// Without a recorded predecessor the survivor is the first page of its level.
pub proof fn law_repair_of_first<K, V>(pages: Pages<K, V>, repair: MergeRepair<usize>)
    requires
        repair.predecessor is None,
        repair.survivor < pages.len(),
    ensures
        ({
            let after = link_repaired(pages, repair);
            &&& repair_ends(pages, repair)
            &&& after.len() == pages.len()
            &&& after[repair.survivor as int] == (Page {
                previous: None,
                ..pages[repair.survivor as int]
            })
            &&& forall|k: int|
                0 <= k < pages.len() && k != repair.survivor ==> #[trigger] after[k] == pages[k]
        }),
{
}

/// Whether pages differ from others at most in their sibling links.
pub open spec fn relinked<K, V>(before: Pages<K, V>, after: Pages<K, V>) -> bool {
    &&& after.len() == before.len()
    &&& forall|k: int|
        0 <= k < before.len() ==> #[trigger] after[k] == (Page {
            right: after[k].right,
            previous: after[k].previous,
            ..before[k]
        })
}

/// Whether the page that the survivor names as its predecessor is active and
/// leads to the survivor.
pub open spec fn well_joined<K, V>(pages: Pages<K, V>, survivor: usize) -> bool {
    match pages[survivor as int].previous {
        None => true,
        Some(s) => {
            &&& s < pages.len()
            &&& pages[s as int].body !is Redirect
            &&& pages[s as int].right == Some(survivor)
        },
    }
}

proof fn lemma_walk_joins<K, V>(
    pages: Pages<K, V>,
    cursor: usize,
    retired: usize,
    survivor: usize,
    steps: nat,
)
    requires
        walk(pages, cursor, retired, survivor, steps) is Some,
    ensures
        relinked(pages, walk(pages, cursor, retired, survivor, steps)->0),
        well_joined(walk(pages, cursor, retired, survivor, steps)->0, survivor),
    decreases steps,
{
    match walk_step(pages, cursor, retired, survivor) {
        Walk::At(after, next) => {
            lemma_walk_joins(after, next, retired, survivor, (steps - 1) as nat);
            assert(relinked(pages, after));
        },
        Walk::Ended(after) => {
            assert(relinked(pages, after));
        },
        Walk::Stuck => {},
    }
}

/// The repair of a merge changes sibling links only. After it the page that
/// the survivor names as its predecessor is active and leads to the survivor.
pub proof fn law_repair_joins<K, V>(pages: Pages<K, V>, repair: MergeRepair<usize>)
    requires
        repair.survivor < pages.len(),
        repair_ends(pages, repair),
    ensures
        relinked(pages, link_repaired(pages, repair)),
        well_joined(link_repaired(pages, repair), repair.survivor),
{
    if let Some(cursor) = repair.predecessor {
        let steps = choose|n: nat| #[trigger]
            walk(pages, cursor, repair.retired, repair.survivor, n) is Some;
        lemma_walk_joins(pages, cursor, repair.retired, repair.survivor, steps);
    }
}

/// Whether `row` is a chain of active pages, of which the last, and no page
/// before it, leads to the retired page, and none to its survivor.
pub open spec fn approach<K, V>(
    pages: Pages<K, V>,
    row: Seq<usize>,
    retired: usize,
    survivor: usize,
) -> bool {
    &&& row.len() > 0
    &&& forall|i: int|
        0 <= i < row.len() ==> {
            &&& #[trigger] row[i] < pages.len()
            &&& pages[row[i] as int].body !is Redirect
            &&& pages[row[i] as int].right == Some(
                if i + 1 < row.len() {
                    row[i + 1]
                } else {
                    retired
                },
            )
            &&& i > 0 ==> row[i] != retired && row[i] != survivor
        }
    &&& row.last() != survivor
}

/// No page of such a chain leads to itself.
proof fn lemma_approach_moves<K, V>(
    pages: Pages<K, V>,
    row: Seq<usize>,
    retired: usize,
    survivor: usize,
    i: int,
)
    requires
        approach(pages, row, retired, survivor),
        0 <= i < row.len() - 1,
    ensures
        row[i] != row[i + 1],
    decreases row.len() - i,
{
    assert(row[i] < pages.len() && row[i + 1] < pages.len());
    if row[i] == row[i + 1] && i + 2 < row.len() {
        assert(row[i + 2] < pages.len());
        lemma_approach_moves(pages, row, retired, survivor, i + 1);
    }
}

proof fn lemma_walk_along<K, V>(
    pages: Pages<K, V>,
    row: Seq<usize>,
    retired: usize,
    survivor: usize,
)
    requires
        survivor < pages.len(),
        pages[survivor as int].body !is Redirect,
        approach(pages, row, retired, survivor),
    ensures
        walk(pages, row[0], retired, survivor, row.len()) == Some(
            joined(pages, row.last(), survivor),
        ),
    decreases row.len(),
{
    assert(row[0] < pages.len());
    if row.len() > 1 {
        let rest = row.drop_first();
        assert(row[1] < pages.len());
        lemma_approach_moves(pages, row, retired, survivor, 0);
        assert forall|i: int| 0 <= i < rest.len() implies {
            &&& #[trigger] rest[i] < pages.len()
            &&& pages[rest[i] as int].body !is Redirect
            &&& pages[rest[i] as int].right == Some(
                if i + 1 < rest.len() {
                    rest[i + 1]
                } else {
                    retired
                },
            )
            &&& i > 0 ==> rest[i] != retired && rest[i] != survivor
        } by {
            assert(rest[i] == row[i + 1]);
        }
        lemma_walk_along(pages, rest, retired, survivor);
        assert(walk_step(pages, row[0], retired, survivor) == Walk::At(pages, row[1]));
    }
}

/// Where the recorded predecessor was split since, the search follows the
/// active pages up to the one that leads to the retired page, and joins it to
/// the survivor. No other page changes.
pub proof fn law_repair_follows_chain<K, V>(
    pages: Pages<K, V>,
    repair: MergeRepair<usize>,
    row: Seq<usize>,
)
    requires
        repair.survivor < pages.len(),
        pages[repair.survivor as int].body !is Redirect,
        approach(pages, row, repair.retired, repair.survivor),
        repair.predecessor == Some(row[0]),
    ensures
        repair_ends(pages, repair),
        link_repaired(pages, repair) == joined(pages, row.last(), repair.survivor),
{
    lemma_walk_along(pages, row, repair.retired, repair.survivor);
    law_one_outcome(pages, repair, row.len());
}

/// Where the recorded predecessor was retired since, the repair is the one
/// from the earlier page that it names, or from the page to which it forwards.
pub proof fn law_repair_restarts<K, V>(pages: Pages<K, V>, repair: MergeRepair<usize>)
    requires
        repair.survivor < pages.len(),
        repair.predecessor is Some,
        repair.predecessor->0 < pages.len(),
        pages[repair.predecessor->0 as int].body is Redirect,
    ensures
        ({
            let page = pages[repair.predecessor->0 as int];
            let again = MergeRepair {
                predecessor: match page.previous {
                    Some(earlier) => Some(earlier),
                    None => Some(page.body->Redirect_0),
                },
                ..repair
            };
            &&& repair_ends(pages, again) ==> repair_ends(pages, repair)
            &&& repair_ends(pages, again) ==> link_repaired(pages, repair) == link_repaired(
                pages,
                again,
            )
        }),
{
    let page = pages[repair.predecessor->0 as int];
    let again = MergeRepair {
        predecessor: match page.previous {
            Some(earlier) => Some(earlier),
            None => Some(page.body->Redirect_0),
        },
        ..repair
    };
    if repair_ends(pages, again) {
        let n = choose|n: nat| #[trigger]
            walk(pages, again.predecessor->0, repair.retired, repair.survivor, n) is Some;
        assert(walk(pages, repair.predecessor->0, repair.retired, repair.survivor, n + 1) == walk(
            pages,
            again.predecessor->0,
            repair.retired,
            repair.survivor,
            n,
        ));
        law_one_outcome(pages, again, n);
        law_one_outcome(pages, repair, n + 1);
    }
}

/// Where a retired page stands behind the recorded predecessor, the repair is
/// the one after the predecessor was led past it.
pub proof fn law_repair_compacts<K, V>(pages: Pages<K, V>, repair: MergeRepair<usize>)
    requires
        repair.survivor < pages.len(),
        repair.predecessor is Some,
        ({
            let page = pages[repair.predecessor->0 as int];
            &&& repair.predecessor->0 < pages.len()
            &&& page.body !is Redirect
            &&& page.right matches Some(next) && next < pages.len() && next
                != repair.predecessor->0 && next != repair.retired && next != repair.survivor
                && (pages[next as int].body matches Body::Redirect(target) && target
                != repair.survivor)
        }),
    ensures
        ({
            let cursor = repair.predecessor->0 as int;
            let page = pages[cursor];
            let target = pages[page.right->0 as int].body->Redirect_0;
            let past = pages.update(cursor, Page { right: Some(target), ..page });
            &&& repair_ends(past, repair) ==> repair_ends(pages, repair)
            &&& repair_ends(past, repair) ==> link_repaired(pages, repair) == link_repaired(
                past,
                repair,
            )
        }),
{
    let cursor = repair.predecessor->0;
    let page = pages[cursor as int];
    let target = pages[page.right->0 as int].body->Redirect_0;
    let past = pages.update(cursor as int, Page { right: Some(target), ..page });
    if repair_ends(past, repair) {
        let n = choose|n: nat| #[trigger]
            walk(past, cursor, repair.retired, repair.survivor, n) is Some;
        assert(walk(pages, cursor, repair.retired, repair.survivor, n + 1) == walk(
            past,
            cursor,
            repair.retired,
            repair.survivor,
            n,
        ));
        law_one_outcome(past, repair, n);
        law_one_outcome(pages, repair, n + 1);
    }
}

/// Takes a page out of the store and leaves a forwarding page in its place.
pub(crate) fn take_page<K: Ord, V, const N: usize>(
    pages: &mut Vec<Node<K, V, usize, N>>,
    id: usize,
) -> (node: Node<K, V, usize, N>)
    requires
        id < old(pages)@.len(),
    ensures
        node == old(pages)@[id as int],
        final(pages)@.len() == old(pages)@.len(),
        final(pages)@[id as int].wf(),
        forall|k: int|
            0 <= k < old(pages)@.len() && k != id ==> final(pages)@[k] == old(pages)@[k],
{
    let mut node = Node::forwarding(id);
    std::mem::swap(&mut pages[id], &mut node);
    node
}

/// Names `new_right` as the predecessor of the page behind it, past pages
/// that were retired in the meantime.
pub fn repair_split_backlink<K: Ord, V, const N: usize>(
    pages: &mut Vec<Node<K, V, usize, N>>,
    new_right: usize,
    old_successor: Option<usize>,
)
    requires
        new_right < old(pages)@.len(),
        forall|k: int| 0 <= k < old(pages)@.len() ==> (#[trigger] old(pages)@[k]).wf(),
        still_leads(models(old(pages)@), new_right, old_successor) ==> ends_active(
            models(old(pages)@),
            new_right,
            old_successor->0,
        ),
    ensures
        forall|k: int| 0 <= k < final(pages)@.len() ==> (#[trigger] final(pages)@[k]).wf(),
        models(final(pages)@) == backlink_repaired(
            models(old(pages)@),
            new_right,
            old_successor,
        ),
{
    let ghost before = models(pages@);
    let mut successor = match old_successor {
        Some(successor) => successor,
        None => {
            return;
        },
    };
    if !pages[new_right].leads_to(&successor) {
        return;
    }
    let ghost mut steps = choose|n: nat| #[trigger]
        forward_end(before, new_right, successor, n) is Some;
    let ghost end = active_behind(before, new_right, successor);
    loop
        invariant
            new_right < before.len(),
            pages@.len() == before.len(),
            before == models(old(pages)@),
            still_leads(before, new_right, old_successor),
            end == active_behind(before, new_right, old_successor->0),
            forall|k: int| 0 <= k < pages@.len() ==> (#[trigger] pages@[k]).wf(),
            models(pages@) == before.update(
                new_right as int,
                Page { right: Some(successor), ..before[new_right as int] },
            ),
            forward_end(before, new_right, successor, steps) == Some(end),
        decreases steps,
    {
        let ghost here = models(pages@);
        assert(here[successor as int] == before[successor as int]);
        assert(here[new_right as int].right == Some(successor));
        match pages[successor].adopt_predecessor(&new_right) {
            Some(target) => {
                pages[new_right].set_successor(target);
                successor = target;
                proof {
                    steps = (steps - 1) as nat;
                    assert(models(pages@)[new_right as int] == (Page {
                        right: Some(target),
                        ..here[new_right as int]
                    }));
                    assert forall|k: int|
                        0 <= k < before.len() && k != new_right implies #[trigger] models(
                        pages@,
                    )[k] == before[k] by {
                        assert(here[k] == before[k]);
                    }
                    assert(models(pages@) =~= before.update(
                        new_right as int,
                        Page { right: Some(successor), ..before[new_right as int] },
                    ));
                }
            },
            None => {
                pages[new_right].set_successor(successor);
                proof {
                    assert(models(pages@) =~= backlink_repaired(
                        before,
                        new_right,
                        old_successor,
                    ));
                }
                return;
            },
        }
    }
}

/// Splices a retired merged page out of the forward sibling chain.
///
/// The search for the page that leads to the retired one walks forward
/// from the predecessor that was known at the merge, and compacts other
/// retired pages on its way.
#[verifier::rlimit(40)]
pub fn repair_merged_link<K: Ord, V, const N: usize>(
    pages: &mut Vec<Node<K, V, usize, N>>,
    repair: MergeRepair<usize>,
)
    requires
        repair.survivor < old(pages)@.len(),
        forall|k: int| 0 <= k < old(pages)@.len() ==> (#[trigger] old(pages)@[k]).wf(),
        repair_ends(models(old(pages)@), repair),
    ensures
        forall|k: int| 0 <= k < final(pages)@.len() ==> (#[trigger] final(pages)@[k]).wf(),
        models(final(pages)@) == link_repaired(models(old(pages)@), repair),
{
    let mut cursor = match repair.predecessor {
        Some(cursor) => cursor,
        None => {
            let ghost before = models(pages@);
            pages[repair.survivor].clear_predecessor();
            assert(models(pages@) =~= link_repaired(before, repair));
            return;
        },
    };
    let retired = repair.retired;
    let survivor = repair.survivor;
    let ghost outcome = link_repaired(models(pages@), repair);
    let ghost mut steps = choose|n: nat| #[trigger]
        walk(models(pages@), cursor, retired, survivor, n) is Some;
    loop
        invariant
            survivor < pages@.len(),
            forall|k: int| 0 <= k < pages@.len() ==> (#[trigger] pages@[k]).wf(),
            walk(models(pages@), cursor, retired, survivor, steps) == Some(outcome),
            outcome == link_repaired(models(old(pages)@), repair),
        decreases steps,
    {
        let ghost before = models(pages@);
        let ghost at = cursor as int;
        assert(walk_step(before, cursor, retired, survivor) !is Stuck);
        let mut page = take_page(pages, cursor);
        match page.splice_step(&retired, &survivor) {
            LinkRepair::Restart(earlier, target) => {
                pages[cursor] = page;
                cursor = match earlier {
                    Some(earlier) => earlier,
                    None => target,
                };
                assert(models(pages@) =~= before);
            },
            LinkRepair::Leftmost => {
                pages[cursor] = page;
                pages[survivor].clear_predecessor();
                proof {
                    assert(models(pages@) =~= outcome);
                }
                return;
            },
            LinkRepair::Replaced => {
                let target = page.attach(&cursor, &mut pages[survivor]);
                pages[cursor] = page;
                match target {
                    Some(target) => {
                        cursor = target;
                        assert(models(pages@) =~= before.update(
                            at,
                            Page { right: Some(target), ..before[at] },
                        ));
                    },
                    None => {
                        assert(models(pages@) =~= outcome);
                        return;
                    },
                }
            },
            LinkRepair::Attached => {
                let target = page.attach(&cursor, &mut pages[survivor]);
                pages[cursor] = page;
                if target.is_none() {
                    assert(models(pages@) =~= outcome);
                    return;
                }
                assert(models(pages@) =~= before.update(
                    at,
                    Page { right: target, ..before[at] },
                ));
            },
            LinkRepair::Next(next) => {
                match page.splice_past(&pages[next], &survivor) {
                    LinkPass::Advance => {
                        pages[cursor] = page;
                        cursor = next;
                        assert(models(pages@) =~= before);
                    },
                    LinkPass::Compacted => {
                        pages[cursor] = page;
                        assert(models(pages@) =~= before.update(
                            at,
                            Page { right: page@.right, ..before[at] },
                        ));
                    },
                    LinkPass::Joined => {
                        let active = pages[survivor].adopt_predecessor(&cursor);
                        pages[cursor] = page;
                        if active.is_none() {
                            assert(models(pages@) =~= outcome);
                            return;
                        }
                        assert(models(pages@) =~= before.update(
                            at,
                            Page { right: page@.right, ..before[at] },
                        ));
                    },
                }
            },
        }
        proof {
            steps = (steps - 1) as nat;
        }
    }
}

} // verus!
