//! Case-insensitive search over node texts, with a cursor over the matches.
use vstd::prelude::*;
use crate::node::{NodeId, NodeView};
use crate::text::{contains_seq, lowercase, str_contains, to_lowercase};
use crate::tree::{MindmapTree, live_order};

verus! {

/// Node `id` matches query `q`: its text is non-empty and contains the query,
/// both taken in lower case.
pub open spec fn is_match(ns: Seq<NodeView>, q: Seq<char>, id: NodeId) -> bool {
    ns[id as int].text.len() > 0 && contains_seq(lowercase(ns[id as int].text), lowercase(q))
}

pub open spec fn match_pred(ns: Seq<NodeView>, q: Seq<char>) -> spec_fn(NodeId) -> bool {
    |id: NodeId| is_match(ns, q, id)
}

/// The matches of `q` in `t`, in pre-order; none for an empty query.
pub open spec fn search_matches(t: &MindmapTree, q: Seq<char>) -> Seq<NodeId> {
    if q.len() == 0 {
        Seq::empty()
    } else {
        live_order(t).filter(match_pred(t.ns(), q))
    }
}

/// The cursor after a rescan: kept when still in range, else reset to 0.
pub open spec fn rescanned_index(old_index: usize, q: Seq<char>, n: nat) -> usize {
    if q.len() == 0 || n == 0 || old_index >= n {
        0
    } else {
        old_index
    }
}

/// The cursor after stepping forward over `n` matches, wrapping around.
pub open spec fn next_index(i: int, n: nat) -> int {
    if n == 0 { i } else { (i + 1) % (n as int) }
}

/// The cursor after stepping back over `n` matches, wrapping around.
pub open spec fn prev_index(i: int, n: nat) -> int {
    if n == 0 { i } else if i == 0 { n - 1 } else { i - 1 }
}

/// Stepping forward and then back (or back and then forward) over the matches
/// returns to the match the cursor was on.
pub proof fn lemma_next_prev_inverse(i: int, n: nat)
    requires
        0 <= i < n,
    ensures
        prev_index(next_index(i, n), n) == i,
        next_index(prev_index(i, n), n) == i,
{
    if i + 1 < n {
        vstd::arithmetic::div_mod::lemma_small_mod((i + 1) as nat, n);
    } else {
        vstd::arithmetic::div_mod::lemma_mod_self_0(n as int);
    }
    if i == 0 {
        vstd::arithmetic::div_mod::lemma_mod_self_0(n as int);
    } else {
        vstd::arithmetic::div_mod::lemma_small_mod(i as nat, n);
    }
}

pub struct SearchState {
    pub active: bool,
    pub query: String,
    pub matches: Vec<NodeId>,
    pub current_index: usize,
    pub select_all_pending: bool,
    pub replace_text: String,
    pub replace_active: bool,
    /// The query that the matches were last computed for.
    pub prev_query: String,
}

impl SearchState {
    pub open spec fn scanned_query(&self) -> Seq<char> {
        self.prev_query@
    }

    pub fn new() -> (res: Self)
        ensures
            !res.active,
            res.query@.len() == 0,
            res.matches@.len() == 0,
            res.current_index == 0,
            !res.select_all_pending,
            res.replace_text@.len() == 0,
            !res.replace_active,
            res.scanned_query().len() == 0,
    {
        SearchState {
            active: false,
            query: String::new(),
            matches: Vec::new(),
            current_index: 0,
            select_all_pending: false,
            replace_text: String::new(),
            replace_active: false,
            prev_query: String::new(),
        }
    }

    pub fn open(&mut self)
        ensures
            final(self).active,
            final(self).query@ == old(self).query@,
            final(self).matches@ == old(self).matches@,
            final(self).current_index == old(self).current_index,
            final(self).select_all_pending == old(self).select_all_pending,
            final(self).replace_text@ == old(self).replace_text@,
            final(self).replace_active == old(self).replace_active,
            final(self).scanned_query() == old(self).scanned_query(),
    {
        self.active = true;
    }

    /// Closes the search bar and forgets the query, matches and replacement.
    pub fn close(&mut self)
        ensures
            !final(self).active,
            final(self).query@.len() == 0,
            final(self).matches@.len() == 0,
            final(self).current_index == 0,
            final(self).scanned_query().len() == 0,
            final(self).replace_text@.len() == 0,
            !final(self).replace_active,
            final(self).select_all_pending == old(self).select_all_pending,
    {
        self.active = false;
        self.query = String::new();
        self.matches = Vec::new();
        self.current_index = 0;
        self.prev_query = String::new();
        self.replace_text = String::new();
        self.replace_active = false;
    }

    pub fn toggle_replace(&mut self)
        ensures
            final(self).replace_active == !old(self).replace_active,
            final(self).active == old(self).active,
            final(self).query@ == old(self).query@,
            final(self).matches@ == old(self).matches@,
            final(self).current_index == old(self).current_index,
            final(self).replace_text@ == old(self).replace_text@,
            final(self).scanned_query() == old(self).scanned_query(),
    {
        self.replace_active = !self.replace_active;
    }

    pub fn is_active(&self) -> (res: bool)
        ensures
            res == self.active,
    {
        self.active
    }

    /// Rescans even when the query is unchanged. With an empty query the
    /// matches are left as they were.
    pub fn update_matches_force(&mut self, tree: &MindmapTree)
        requires
            tree.wf(),
        ensures
            old(self).query@.len() == 0 ==> {
                &&& final(self).matches@ == old(self).matches@
                &&& final(self).current_index == old(self).current_index
            },
            old(self).query@.len() > 0 ==> {
                &&& final(self).matches@ == search_matches(tree, old(self).query@)
                &&& final(self).current_index == rescanned_index(
                    old(self).current_index,
                    old(self).query@,
                    final(self).matches@.len(),
                )
            },
            final(self).scanned_query() == old(self).query@,
            final(self).query@ == old(self).query@,
            final(self).active == old(self).active,
            final(self).replace_text@ == old(self).replace_text@,
            final(self).replace_active == old(self).replace_active,
            final(self).select_all_pending == old(self).select_all_pending,
    {
        self.prev_query = String::new();
        assert(self.query@.len() == 0 ==> self.query@ =~= self.prev_query@);
        self.update_matches(tree);
    }

    /// Recomputes the matches when the query changed since the last scan.
    pub fn update_matches(&mut self, tree: &MindmapTree)
        requires
            tree.wf(),
        ensures
            old(self).query@ == old(self).scanned_query() ==> {
                &&& final(self).matches@ == old(self).matches@
                &&& final(self).current_index == old(self).current_index
                &&& final(self).scanned_query() == old(self).scanned_query()
            },
            old(self).query@ != old(self).scanned_query() ==> {
                &&& final(self).matches@ == search_matches(tree, old(self).query@)
                &&& final(self).current_index == rescanned_index(
                    old(self).current_index,
                    old(self).query@,
                    final(self).matches@.len(),
                )
                &&& final(self).scanned_query() == old(self).query@
            },
            final(self).query@ == old(self).query@,
            final(self).active == old(self).active,
            final(self).replace_text@ == old(self).replace_text@,
            final(self).replace_active == old(self).replace_active,
            final(self).select_all_pending == old(self).select_all_pending,
    {
        if self.query == self.prev_query {
            return;
        }
        self.prev_query = self.query.clone();
        self.matches = Vec::new();
        if self.query.as_str().is_empty() {
            self.current_index = 0;
            return;
        }
        let query_lower = to_lowercase(self.query.as_str());
        let order = tree.dfs_order();
        let ghost q = self.query@;
        let ghost ns = tree.ns();
        proof {
            crate::tree::lemma_live_order_in_range(tree);
        }
        let mut i: usize = 0;
        while i < order.len()
            invariant
                tree.wf(),
                ns == tree.ns(),
                order@ == live_order(tree),
                forall|k: int| 0 <= k < order@.len() ==> (#[trigger] order@[k]) < tree.nodes.len(),
                query_lower@ == lowercase(q),
                i <= order.len(),
                self.matches@ == order@.take(i as int).filter(match_pred(ns, q)),
                self.query@ == q,
                self.prev_query@ == q,
                self.active == old(self).active,
                self.replace_text@ == old(self).replace_text@,
                self.replace_active == old(self).replace_active,
                self.select_all_pending == old(self).select_all_pending,
                self.current_index == old(self).current_index,
            decreases order.len() - i,
        {
            let node_id = order[i];
            let text = tree.nodes[node_id].text.as_str();
            assert(text@ == ns[node_id as int].text);
            let mut hit = false;
            if !text.is_empty() {
                let lower = to_lowercase(text);
                hit = str_contains(lower.as_str(), query_lower.as_str());
                assert(hit == contains_seq(lowercase(text@), lowercase(q)));
            }
            assert(hit == is_match(ns, q, node_id));
            assert(hit == match_pred(ns, q)(node_id));
            if hit {
                self.matches.push(node_id);
            }
            proof {
                reveal(Seq::filter);
                assert(order@.take(i + 1).drop_last() =~= order@.take(i as int));
                assert(order@.take(i + 1).last() == node_id);
            }
            i = i + 1;
        }
        assert(order@.take(i as int) =~= order@);
        if self.matches.len() == 0 {
            self.current_index = 0;
        } else if self.current_index >= self.matches.len() {
            self.current_index = 0;
        }
    }

    /// Moves to the next match, wrapping around.
    pub fn next(&mut self)
        ensures
            final(self).current_index == next_index(old(self).current_index as int, old(self).matches@.len()),
            final(self).matches@ == old(self).matches@,
            final(self).query@ == old(self).query@,
            final(self).active == old(self).active,
            final(self).scanned_query() == old(self).scanned_query(),
            final(self).replace_text@ == old(self).replace_text@,
            final(self).replace_active == old(self).replace_active,
    {
        if self.matches.len() > 0 {
            let n = self.matches.len();
            if self.current_index >= n {
                self.current_index = ((self.current_index % n) + 1) % n;
                proof {
                    let c = old(self).current_index as int;
                    let m = n as int;
                    vstd::arithmetic::div_mod::lemma_add_mod_noop(c, 1, m);
                    if m > 1 {
                        vstd::arithmetic::div_mod::lemma_small_mod(1, m as nat);
                    }
                }
            } else {
                self.current_index = (self.current_index + 1) % n;
            }
        }
    }

    /// Moves to the previous match, wrapping around.
    pub fn prev(&mut self)
        ensures
            final(self).current_index == prev_index(old(self).current_index as int, old(self).matches@.len()),
            final(self).matches@ == old(self).matches@,
            final(self).query@ == old(self).query@,
            final(self).active == old(self).active,
            final(self).scanned_query() == old(self).scanned_query(),
            final(self).replace_text@ == old(self).replace_text@,
            final(self).replace_active == old(self).replace_active,
    {
        if self.matches.len() > 0 {
            if self.current_index == 0 {
                self.current_index = self.matches.len() - 1;
            } else {
                self.current_index = self.current_index - 1;
            }
        }
    }

    /// The match under the cursor, if the cursor is in range.
    pub fn current_match(&self) -> (res: Option<NodeId>)
        ensures
            res == if self.current_index < self.matches@.len() {
                Some(self.matches@[self.current_index as int])
            } else {
                None::<NodeId>
            },
    {
        if self.current_index < self.matches.len() {
            Some(self.matches[self.current_index])
        } else {
            None
        }
    }

    /// Puts the cursor on the first match that is `node_id`, if there is one.
    pub fn jump_to_node(&mut self, node_id: NodeId)
        ensures
            old(self).matches@.contains(node_id) ==> {
                &&& final(self).current_index < old(self).matches@.len()
                &&& old(self).matches@[final(self).current_index as int] == node_id
                &&& forall|k: int| 0 <= k < final(self).current_index ==> old(self).matches@[k] != node_id
            },
            !old(self).matches@.contains(node_id) ==> final(self).current_index == old(self).current_index,
            final(self).matches@ == old(self).matches@,
            final(self).query@ == old(self).query@,
            final(self).active == old(self).active,
            final(self).scanned_query() == old(self).scanned_query(),
            final(self).replace_text@ == old(self).replace_text@,
            final(self).replace_active == old(self).replace_active,
    {
        let mut i: usize = 0;
        while i < self.matches.len()
            invariant
                i <= self.matches.len(),
                self.matches@ == old(self).matches@,
                self.current_index == old(self).current_index,
                self.query@ == old(self).query@,
                self.active == old(self).active,
                self.prev_query@ == old(self).prev_query@,
                self.replace_text@ == old(self).replace_text@,
                self.replace_active == old(self).replace_active,
                forall|k: int| 0 <= k < i ==> self.matches@[k] != node_id,
            decreases self.matches.len() - i,
        {
            if self.matches[i] == node_id {
                self.current_index = i;
                return;
            }
            i = i + 1;
        }
    }
}

impl Default for SearchState {
    fn default() -> (res: Self)
        ensures
            !res.active,
            res.query@.len() == 0,
            res.matches@.len() == 0,
            res.current_index == 0,
            !res.replace_active,
    {
        Self::new()
    }
}


/// Stepping forward moves the cursor to the match after the current one (from
/// the last back to the first), and stepping back to the one before it (from
/// the first to the last).
pub proof fn lemma_step_directions(i: int, n: nat)
    requires
        0 <= i < n,
    ensures
        next_index(i, n) == if i + 1 < n { i + 1 } else { 0 },
        prev_index(i, n) == if i > 0 { i - 1 } else { n - 1 },
        i + 1 < n ==> next_index(i, n) > i,
        i > 0 ==> prev_index(i, n) < i,
{
    if i + 1 < n {
        vstd::arithmetic::div_mod::lemma_small_mod((i + 1) as nat, n);
    } else {
        vstd::arithmetic::div_mod::lemma_mod_self_0(n as int);
    }
}
} // verus!
