//! The interactive session state machine: mode, filter text, the ordered
//! filtered view over the store, the selection index, and the view-mode
//! toggle, driven by discrete key events. After every transition the
//! selection is a valid index into the visible order, or absent exactly
//! when that order is empty.

use vstd::prelude::*;
use vstd::string::*;
use crate::store::{GraphModel, StoreView};
use crate::text::{
    chars_vec, lowercase, lower_of, node_matches, node_matches_exec, pop_char, push_char, trim_of,
    trim_ws,
};

verus! {

/// The interaction mode: browsing, editing the filter, or the help
/// overlay (which returns to browsing).
#[derive(Debug, Clone, Copy, PartialEq, Eq, Structural)]
pub enum Mode {
    Normal,
    Filter,
    HelpOverlay,
}

/// How the neighborhood panel renders: as text columns or as shapes.
#[derive(Debug, Clone, Copy, PartialEq, Eq, Structural)]
pub enum DagViewMode {
    Text,
    Canvas,
}

/// One decoded key press, independent of any terminal library.
#[derive(Debug, Clone, Copy, PartialEq, Eq, Structural)]
pub enum KeyInput {
    Up,
    Down,
    Tab,
    Esc,
    Enter,
    Backspace,
    Char { ch: char, ctrl: bool },
    Other,
}

/// The mathematical value of an [`App`].
#[verifier::ext_equal]
pub ghost struct AppView {
    pub store: StoreView,
    pub order: Seq<usize>,
    pub selected: Option<usize>,
    pub filter: Seq<char>,
    pub mode: Mode,
    pub view_mode: DagViewMode,
}

/// All arena indices in insertion order.
pub open spec fn all_indices(s: StoreView) -> Seq<usize> {
    Seq::new(s.nodes.len(), |i: int| i as usize)
}

/// The indices of the first `n` nodes that match `q`, in order.
pub open spec fn matching_prefix(s: StoreView, q: Seq<char>, n: int) -> Seq<usize>
    decreases n,
{
    if n <= 0 {
        Seq::empty()
    } else {
        let rest = matching_prefix(s, q, n - 1);
        if node_matches(s.nodes[n - 1], q) {
            rest.push((n - 1) as usize)
        } else {
            rest
        }
    }
}

/// The visible order for a (normalized) filter: everything when the
/// filter is empty, otherwise the matching nodes in enumeration order.
pub open spec fn visible_spec(s: StoreView, q: Seq<char>) -> Seq<usize> {
    if q.len() == 0 {
        all_indices(s)
    } else {
        matching_prefix(s, q, s.nodes.len() as int)
    }
}

/// How the selection is clamped into a list of length `len`: absent for
/// an empty list, otherwise the previous index (or 0) capped at the end.
pub open spec fn clamped(prev: Option<usize>, len: nat) -> Option<usize> {
    if len == 0 {
        None
    } else {
        let p: int = match prev {
            Some(i) => i as int,
            None => 0,
        };
        if p < len {
            Some(p as usize)
        } else {
            Some((len - 1) as usize)
        }
    }
}

/// The node the selection points at before a recompute, when the index
/// is in range.
pub open spec fn prev_node_of(pre: AppView) -> Option<usize> {
    match pre.selected {
        Some(i) => if i < pre.order.len() {
            Some(pre.order[i as int])
        } else {
            None
        },
        None => None,
    }
}

/// The position of `x` in `order`. Meaningful only when `x` occurs;
/// where the order lists each node once it is the unique position.
pub open spec fn index_in(order: Seq<usize>, x: usize) -> int {
    choose|i: int| 0 <= i < order.len() && order[i] == x
}

/// The selection after a recompute of the visible order: absent when
/// nothing is visible; following the previously selected node when that
/// node is still visible; otherwise the old index clamped to the end.
pub open spec fn retarget(pre: AppView, new_order: Seq<usize>) -> Option<usize> {
    if new_order.len() == 0 {
        None
    } else {
        match prev_node_of(pre) {
            Some(x) => if new_order.contains(x) {
                Some(index_in(new_order, x) as usize)
            } else {
                clamped(pre.selected, new_order.len())
            },
            None => clamped(pre.selected, new_order.len()),
        }
    }
}

/// A query as the filter normalizes it: trimmed, then lowercased.
pub open spec fn norm_query(q: Seq<char>) -> Seq<char> {
    lower_of(trim_of(q))
}

/// What applying the filter text `q` does to the session: the store and
/// the modes are untouched, the stored filter is the normalized query,
/// the visible order is recomputed from the whole store, and the
/// selection tracks the previously selected node when it is still
/// visible, falling back to the clamped index.
pub open spec fn filter_applied(pre: AppView, post: AppView, q: Seq<char>) -> bool {
    &&& post.store == pre.store
    &&& post.mode == pre.mode
    &&& post.view_mode == pre.view_mode
    &&& post.filter == norm_query(q)
    &&& post.order == visible_spec(pre.store, post.filter)
    &&& post.selected == retarget(pre, post.order)
}

/// Everything but the mode is untouched.
pub open spec fn same_except_mode(pre: AppView, post: AppView, m: Mode) -> bool {
    &&& post.store == pre.store
    &&& post.order == pre.order
    &&& post.selected == pre.selected
    &&& post.filter == pre.filter
    &&& post.view_mode == pre.view_mode
    &&& post.mode == m
}

/// Everything but the selection is untouched.
pub open spec fn only_selection_changed(pre: AppView, post: AppView) -> bool {
    &&& post.store == pre.store
    &&& post.order == pre.order
    &&& post.filter == pre.filter
    &&& post.mode == pre.mode
    &&& post.view_mode == pre.view_mode
}

/// The selection after moving up: wraps from the top to the bottom; an
/// empty order is left alone.
pub open spec fn up_index(a: AppView) -> Option<usize> {
    if a.order.len() == 0 {
        a.selected
    } else {
        let i: int = match a.selected {
            Some(i) => i as int,
            None => 0,
        };
        if i == 0 {
            Some((a.order.len() - 1) as usize)
        } else {
            Some((i - 1) as usize)
        }
    }
}

/// The selection after moving down: wraps from the bottom to the top; an
/// empty order is left alone.
pub open spec fn down_index(a: AppView) -> Option<usize> {
    if a.order.len() == 0 {
        a.selected
    } else {
        let i: int = match a.selected {
            Some(i) => i as int,
            None => 0,
        };
        if i >= a.order.len() - 1 {
            Some(0usize)
        } else {
            Some((i + 1) as usize)
        }
    }
}

pub open spec fn moved_up(pre: AppView, post: AppView) -> bool {
    only_selection_changed(pre, post) && post.selected == up_index(pre)
}

pub open spec fn moved_down(pre: AppView, post: AppView) -> bool {
    only_selection_changed(pre, post) && post.selected == down_index(pre)
}

/// The other view mode.
pub open spec fn flipped(v: DagViewMode) -> DagViewMode {
    match v {
        DagViewMode::Text => DagViewMode::Canvas,
        DagViewMode::Canvas => DagViewMode::Text,
    }
}

/// Everything but the view mode is untouched, and that is flipped.
pub open spec fn toggled(pre: AppView, post: AppView) -> bool {
    &&& post.store == pre.store
    &&& post.order == pre.order
    &&& post.selected == pre.selected
    &&& post.filter == pre.filter
    &&& post.mode == pre.mode
    &&& post.view_mode == flipped(pre.view_mode)
}

/// The filter is cleared: the stored filter text becomes empty, the
/// visible order is the full enumeration again, and the selection
/// follows the previously selected node where possible.
pub open spec fn cleared(pre: AppView, post: AppView) -> bool {
    &&& post.store == pre.store
    &&& post.mode == pre.mode
    &&& post.view_mode == pre.view_mode
    &&& post.filter == Seq::<char>::empty()
    &&& post.order == all_indices(pre.store)
    &&& post.selected == retarget(pre, post.order)
}

/// The whole transition table, one case per mode and key.
pub open spec fn handle_key_rel(pre: AppView, post: AppView, key: KeyInput, quit: bool) -> bool {
    match pre.mode {
        Mode::Normal => match key {
            KeyInput::Up => !quit && moved_up(pre, post),
            KeyInput::Down => !quit && moved_down(pre, post),
            KeyInput::Tab => !quit && toggled(pre, post),
            KeyInput::Char { ch, ctrl } => if ch == 'q' {
                quit && post == pre
            } else if ch == 'k' {
                !quit && moved_up(pre, post)
            } else if ch == 'j' {
                !quit && moved_down(pre, post)
            } else if ch == '/' {
                !quit && same_except_mode(pre, post, Mode::Filter)
            } else if ch == 'c' {
                !quit && cleared(pre, post)
            } else if ch == '?' {
                !quit && same_except_mode(pre, post, Mode::HelpOverlay)
            } else {
                !quit && post == pre
            },
            _ => !quit && post == pre,
        },
        Mode::Filter => match key {
            KeyInput::Esc => !quit && same_except_mode(pre, post, Mode::Normal),
            KeyInput::Enter => !quit && same_except_mode(pre, post, Mode::Normal),
            KeyInput::Backspace => !quit && filter_applied(
                pre,
                post,
                if pre.filter.len() > 0 {
                    pre.filter.drop_last()
                } else {
                    pre.filter
                },
            ),
            KeyInput::Char { ch, ctrl } => if ctrl {
                !quit && post == pre
            } else {
                !quit && filter_applied(pre, post, pre.filter.push(ch))
            },
            _ => !quit && post == pre,
        },
        Mode::HelpOverlay => match key {
            KeyInput::Esc => !quit && same_except_mode(pre, post, Mode::Normal),
            KeyInput::Char { ch, ctrl } => if ch == '?' {
                !quit && same_except_mode(pre, post, Mode::Normal)
            } else {
                !quit && post == pre
            },
            _ => !quit && post == pre,
        },
    }
}

/// The interactive session over a loaded store.
pub struct App {
    pub gm: GraphModel,
    pub order: Vec<usize>,
    pub selected: Option<usize>,
    pub filter_text: String,
    pub mode: Mode,
    pub dag_view_mode: DagViewMode,
}

impl View for App {
    type V = AppView;

    open spec fn view(&self) -> AppView {
        AppView {
            store: self.gm@,
            order: self.order@,
            selected: self.selected,
            filter: self.filter_text@,
            mode: self.mode,
            view_mode: self.dag_view_mode,
        }
    }
}

proof fn lemma_matching_prefix_props(s: StoreView, q: Seq<char>, n: int)
    requires
        0 <= n <= s.nodes.len(),
        n <= usize::MAX,
    ensures
        ({
            let mp = matching_prefix(s, q, n);
            &&& forall|k: int| 0 <= k < mp.len() ==> (#[trigger] mp[k]) < n
            &&& forall|k1: int, k2: int| 0 <= k1 < k2 < mp.len() ==> mp[k1] < mp[k2]
        }),
    decreases n,
{
    if n > 0 {
        lemma_matching_prefix_props(s, q, n - 1);
        let rest = matching_prefix(s, q, n - 1);
        let mp = matching_prefix(s, q, n);
        assert forall|k1: int, k2: int| 0 <= k1 < k2 < mp.len() implies mp[k1] < mp[k2] by {
            if k2 < rest.len() {
                assert(rest[k1] < rest[k2]);
            } else {
                assert(rest[k1] < n - 1 || mp[k2] == (n - 1) as usize);
            }
        }
    }
}

/// Every visible index is a valid arena index, and the visible order is
/// strictly increasing (so no index appears twice).
pub proof fn lemma_visible_bounds(s: StoreView, q: Seq<char>)
    requires
        s.nodes.len() <= usize::MAX,
    ensures
        forall|k: int|
            0 <= k < visible_spec(s, q).len() ==> (#[trigger] visible_spec(s, q)[k])
                < s.nodes.len(),
        forall|k1: int, k2: int|
            0 <= k1 < k2 < visible_spec(s, q).len() ==> visible_spec(s, q)[k1] < visible_spec(
                s,
                q,
            )[k2],
{
    if q.len() != 0 {
        lemma_matching_prefix_props(s, q, s.nodes.len() as int);
    } else {
        let v = all_indices(s);
        assert forall|k1: int, k2: int| 0 <= k1 < k2 < v.len() implies v[k1] < v[k2] by {
            assert(v[k1] == k1 as usize);
            assert(v[k2] == k2 as usize);
        }
    }
}

/// The first position of `x` in `order`, if any.
fn position_of(order: &Vec<usize>, x: usize) -> (r: Option<usize>)
    ensures
        match r {
            Some(i) => i < order@.len() && order@[i as int] == x,
            None => !order@.contains(x),
        },
{
    let n = order.len();
    let mut i: usize = 0;
    while i < n
        invariant
            i <= n,
            n == order@.len(),
            forall|j: int| 0 <= j < i ==> order@[j] != x,
        decreases n - i,
    {
        if order[i] == x {
            return Some(i);
        }
        i += 1;
    }
    proof {
        assert(!order@.contains(x)) by {
            if order@.contains(x) {
                let j = choose|j: int| 0 <= j < order@.len() && order@[j] == x;
                assert(order@[j] != x);
            }
        }
    }
    None
}

impl App {
    /// The session invariant: the store is well formed, the visible
    /// order is exactly the filter applied to the store, and a selection
    /// is present if and only if the order is nonempty, in range.
    pub open spec fn wf(&self) -> bool {
        &&& self@.store.wf()
        &&& self@.order == visible_spec(self@.store, self@.filter)
        &&& (self@.selected is None <==> self@.order.len() == 0)
        &&& (self@.selected matches Some(i) ==> i < self@.order.len())
    }

    /// A fresh session over a loaded store: every node visible in
    /// insertion order, the first selected when there is one, browsing
    /// mode, text view, empty filter.
    pub fn new(gm: GraphModel) -> (r: App)
        requires
            gm.wf(),
        ensures
            r.wf(),
            r@.store == gm@,
            r@.filter == Seq::<char>::empty(),
            r@.mode == Mode::Normal,
            r@.view_mode == DagViewMode::Text,
            r@.order == all_indices(gm@),
            r@.selected == (if gm@.nodes.len() == 0 {
                Option::<usize>::None
            } else {
                Option::<usize>::Some(0usize)
            }),
    {
        let n = gm.node_count();
        let mut order: Vec<usize> = Vec::new();
        let mut i: usize = 0;
        while i < n
            invariant
                i <= n,
                order@.len() == i,
                forall|k: int| 0 <= k < i ==> order@[k] == k as usize,
            decreases n - i,
        {
            order.push(i);
            i += 1;
        }
        let selected: Option<usize> = if n == 0 {
            None
        } else {
            Some(0)
        };
        let r = App {
            gm,
            order,
            selected,
            filter_text: String::new(),
            mode: Mode::Normal,
            dag_view_mode: DagViewMode::Text,
        };
        proof {
            assert(r@.order =~= all_indices(r@.store));
            assert(r@.filter =~= Seq::<char>::empty());
        }
        r
    }

    /// The arena index of the selected node, if any.
    pub fn selected(&self) -> (r: Option<usize>)
        requires
            self.wf(),
        ensures
            r == (match self@.selected {
                Some(i) => Some(self@.order[i as int]),
                None => None::<usize>,
            }),
            r matches Some(x) ==> x < self@.store.nodes.len(),
    {
        let n = self.gm.node_count();
        proof {
            lemma_visible_bounds(self@.store, self@.filter);
        }
        match self.selected {
            Some(i) => Some(self.order[i]),
            None => None,
        }
    }

    /// Recomputes the filter from a raw query: the query is trimmed and
    /// lowercased, stored, and matched against every node. The selection
    /// follows the previously selected node when it is still visible;
    /// otherwise the index is clamped into the new order, or cleared
    /// when nothing matches. An empty query clears the filter.
    pub fn apply_filter(&mut self, query: &str)
        requires
            old(self)@.store.wf(),
        ensures
            final(self).wf(),
            filter_applied(old(self)@, final(self)@, query@),
            query@.len() == 0 ==> final(self)@.filter.len() == 0,
    {
        let ghost s = self.gm@;
        let ghost pre = self@;
        let prev_node: Option<usize> = match self.selected {
            Some(i) => if i < self.order.len() {
                Some(self.order[i])
            } else {
                None
            },
            None => None,
        };
        proof {
            assert(prev_node == prev_node_of(pre));
        }
        let t = trim_ws(query);
        let q = lowercase(t);
        self.filter_text = q;
        let qv = chars_vec(self.filter_text.as_str());
        let n = self.gm.node_count();
        let mut order: Vec<usize> = Vec::new();
        if qv.len() == 0 {
            let mut i: usize = 0;
            while i < n
                invariant
                    i <= n,
                    order@.len() == i,
                    forall|k: int| 0 <= k < i ==> order@[k] == k as usize,
                decreases n - i,
            {
                order.push(i);
                i += 1;
            }
            proof {
                assert(order@ =~= all_indices(s));
            }
        } else {
            let mut i: usize = 0;
            while i < n
                invariant
                    i <= n,
                    n == s.nodes.len(),
                    s == self.gm@,
                    qv@ == self.filter_text@,
                    order@ == matching_prefix(s, qv@, i as int),
                decreases n - i,
            {
                let m = node_matches_exec(self.gm.node(i), &qv);
                if m {
                    order.push(i);
                }
                i += 1;
            }
        }
        self.order = order;
        let len = self.order.len();
        if len == 0 {
            self.selected = None;
        } else {
            let target: Option<usize> = match prev_node {
                Some(x) => position_of(&self.order, x),
                None => None,
            };
            match target {
                Some(pos) => {
                    proof {
                        lemma_visible_bounds(s, self.filter_text@);
                        let vs = visible_spec(s, self.filter_text@);
                        assert(self@.order == vs);
                        let x = prev_node->0;
                        assert(self@.order.contains(x));
                        let c = index_in(self@.order, x);
                        assert(0 <= c < self@.order.len() && self@.order[c] == x);
                        if c < pos as int {
                            assert(vs[c] < vs[pos as int]);
                        } else if c > pos as int {
                            assert(vs[pos as int] < vs[c]);
                        }
                        assert(c == pos as int);
                    }
                    self.selected = Some(pos);
                },
                None => {
                    proof {
                        match prev_node {
                            Some(x) => {
                                assert(!self@.order.contains(x));
                            },
                            None => {},
                        }
                    }
                    let cur = match self.selected {
                        Some(i) => i,
                        None => 0,
                    };
                    let ni = if cur < len {
                        cur
                    } else {
                        len - 1
                    };
                    self.selected = Some(ni);
                },
            }
        }
        proof {
            assert(self@.selected == retarget(pre, self@.order));
            if query@.len() == 0 {
                assert(self@.filter.len() == 0);
                assert(self@.order =~= visible_spec(s, self@.filter));
            }
        }
    }

    /// The session with a filter already applied.
    pub fn with_filter(self, query: &str) -> (r: App)
        requires
            self@.store.wf(),
        ensures
            r.wf(),
            filter_applied(self@, r@, query@),
    {
        let mut a = self;
        a.apply_filter(query);
        a
    }

    /// Moves the selection up by one, wrapping at the top.
    pub fn on_up(&mut self)
        requires
            old(self).wf(),
        ensures
            final(self).wf(),
            moved_up(old(self)@, final(self)@),
    {
        if self.order.len() == 0 {
            return ;
        }
        let i = match self.selected {
            Some(i) => i,
            None => 0,
        };
        let ni = if i == 0 {
            self.order.len() - 1
        } else {
            i - 1
        };
        self.selected = Some(ni);
    }

    /// Moves the selection down by one, wrapping at the bottom.
    pub fn on_down(&mut self)
        requires
            old(self).wf(),
        ensures
            final(self).wf(),
            moved_down(old(self)@, final(self)@),
    {
        if self.order.len() == 0 {
            return ;
        }
        let i = match self.selected {
            Some(i) => i,
            None => 0,
        };
        let ni = if i >= self.order.len() - 1 {
            0
        } else {
            i + 1
        };
        self.selected = Some(ni);
    }

    /// Flips between the text and the shape rendering of the
    /// neighborhood panel; nothing else moves.
    pub fn toggle_dag_view(&mut self)
        requires
            old(self).wf(),
        ensures
            final(self).wf(),
            toggled(old(self)@, final(self)@),
    {
        self.dag_view_mode = match self.dag_view_mode {
            DagViewMode::Text => DagViewMode::Canvas,
            DagViewMode::Canvas => DagViewMode::Text,
        };
    }

    /// Feeds one key press through the transition table; returns whether
    /// the session should end.
    pub fn handle_key(&mut self, key: KeyInput) -> (quit: bool)
        requires
            old(self).wf(),
        ensures
            final(self).wf(),
            handle_key_rel(old(self)@, final(self)@, key, quit),
    {
        let ghost pre = self@;
        match self.mode {
            Mode::Normal => match key {
                KeyInput::Up => {
                    self.on_up();
                    false
                },
                KeyInput::Down => {
                    self.on_down();
                    false
                },
                KeyInput::Tab => {
                    self.toggle_dag_view();
                    false
                },
                KeyInput::Char { ch, ctrl: _ } => {
                    if ch == 'q' {
                        true
                    } else if ch == 'k' {
                        self.on_up();
                        false
                    } else if ch == 'j' {
                        self.on_down();
                        false
                    } else if ch == '/' {
                        self.mode = Mode::Filter;
                        false
                    } else if ch == 'c' {
                        proof {
                            reveal_strlit("");
                        }
                        self.apply_filter("");
                        proof {
                            assert(self@.filter =~= Seq::<char>::empty());
                            assert(self@.order =~= all_indices(pre.store));
                        }
                        false
                    } else if ch == '?' {
                        self.mode = Mode::HelpOverlay;
                        false
                    } else {
                        false
                    }
                },
                _ => false,
            },
            Mode::Filter => match key {
                KeyInput::Esc => {
                    self.mode = Mode::Normal;
                    false
                },
                KeyInput::Enter => {
                    self.mode = Mode::Normal;
                    false
                },
                KeyInput::Backspace => {
                    pop_char(&mut self.filter_text);
                    let q = self.filter_text.clone();
                    self.apply_filter(q.as_str());
                    false
                },
                KeyInput::Char { ch, ctrl } => {
                    if !ctrl {
                        push_char(&mut self.filter_text, ch);
                        let q = self.filter_text.clone();
                        self.apply_filter(q.as_str());
                    }
                    false
                },
                _ => false,
            },
            Mode::HelpOverlay => match key {
                KeyInput::Esc => {
                    self.mode = Mode::Normal;
                    false
                },
                KeyInput::Char { ch, ctrl: _ } => {
                    if ch == '?' {
                        self.mode = Mode::Normal;
                    }
                    false
                },
                _ => false,
            },
        }
    }
}

/// Filtering is idempotent: applying the same query twice in a row
/// leaves the session exactly where one application left it — in
/// particular the visible order does not move. The store bound is the
/// model's validity: a store held in memory has at most `usize::MAX`
/// nodes.
pub proof fn lemma_filter_idempotent(a: AppView, b: AppView, c: AppView, q: Seq<char>)
    requires
        filter_applied(a, b, q),
        filter_applied(b, c, q),
        a.store.nodes.len() <= usize::MAX,
    ensures
        c == b,
{
    assert(c.order == b.order);
    if b.order.len() == 0 {
        assert(b.selected is None);
        assert(c.selected is None);
    } else {
        let len = b.order.len();
        match prev_node_of(a) {
            Some(x0) => {
                if b.order.contains(x0) {
                    let c0 = index_in(b.order, x0);
                    assert(0 <= c0 < len && b.order[c0] == x0);
                    assert(b.selected == Some(c0 as usize));
                } else {
                    assert(b.selected == clamped(a.selected, len));
                }
            },
            None => {
                assert(b.selected == clamped(a.selected, len));
            },
        }
        let i = b.selected->0;
        assert(i < len);
        let x = b.order[i as int];
        assert(prev_node_of(b) == Some(x));
        assert(c.order.contains(x));
        let c1 = index_in(c.order, x);
        assert(0 <= c1 < len && c.order[c1] == x);
        assert(c.selected == Some(c1 as usize));
        lemma_visible_bounds(a.store, b.filter);
        if c1 < i as int {
            assert(b.order[c1] < b.order[i as int]);
        } else if c1 > i as int {
            assert(b.order[i as int] < b.order[c1]);
        }
        assert(c1 == i as int);
    }
    assert(c =~= b);
}

/// Toggling the view mode twice returns to the original view mode with
/// no change to the selection, the filter, or anything else.
pub proof fn lemma_toggle_twice(a: AppView, b: AppView, c: AppView)
    requires
        toggled(a, b),
        toggled(b, c),
    ensures
        c == a,
{
    assert(c =~= a);
}

} // verus!

