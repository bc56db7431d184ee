use vstd::prelude::*;

verus! {

/// One open window, as the compositor reports it: a stable numeric id,
/// optional application id and title, an optional workspace membership,
/// and a focus flag.
pub struct Window {
    pub id: u64,
    pub title: Option<String>,
    pub app_id: Option<String>,
    pub workspace_id: Option<u64>,
    pub is_focused: bool,
}

/// The compositor events that the store reacts to. Every event kind that
/// leaves the window list untouched is collapsed into `Ignored`, so the
/// dispatch below stays exhaustive when new kinds appear upstream.
pub enum Event {
    WindowsChanged { windows: Vec<Window> },
    WindowOpenedOrChanged { window: Window },
    WindowClosed { id: u64 },
    WindowFocusChanged { id: Option<u64> },
    Ignored,
}

/// The canonical list of open windows, in insertion order.
pub struct State {
    pub windows: Vec<Window>,
}

/// `w` with its focus flag set to `f`; every other attribute kept.
pub open spec fn with_focus(w: Window, f: bool) -> Window {
    Window { is_focused: f, ..w }
}

/// All focus flags cleared.
pub open spec fn clear_all(s: Seq<Window>) -> Seq<Window> {
    s.map_values(|w: Window| with_focus(w, false))
}

/// Index of the first window with the given id, or -1 when none matches.
pub open spec fn first_with_id(s: Seq<Window>, id: u64) -> int
    decreases s.len(),
{
    if s.len() == 0 {
        -1
    } else if s[0].id == id {
        0
    } else if first_with_id(s.drop_first(), id) == -1 {
        -1
    } else {
        1 + first_with_id(s.drop_first(), id)
    }
}

/// All windows whose id differs from `id`, in order.
pub open spec fn remove_id(s: Seq<Window>, id: u64) -> Seq<Window> {
    s.filter(|w: Window| w.id != id)
}

/// The window list that one event turns `s` into.
pub open spec fn apply_event(s: Seq<Window>, e: Event) -> Seq<Window> {
    match e {
        Event::WindowsChanged { windows } => windows@,
        Event::WindowOpenedOrChanged { window } => {
            let base = if window.is_focused {
                clear_all(s)
            } else {
                s
            };
            let i = first_with_id(s, window.id);
            if i == -1 {
                base.push(window)
            } else {
                base.update(i, window)
            }
        },
        Event::WindowClosed { id } => remove_id(s, id),
        Event::WindowFocusChanged { id } => {
            let base = clear_all(s);
            match id {
                Some(id) => {
                    let i = first_with_id(s, id);
                    if i == -1 {
                        base
                    } else {
                        base.update(i, with_focus(s[i], true))
                    }
                },
                None => base,
            }
        },
        Event::Ignored => s,
    }
}

/// How many windows carry the focus flag.
pub open spec fn focused_count(s: Seq<Window>) -> nat
    decreases s.len(),
{
    if s.len() == 0 {
        0
    } else {
        (if s[0].is_focused {
            1nat
        } else {
            0nat
        }) + focused_count(s.drop_first())
    }
}

/// The store's invariant: at most one window is focused.
pub open spec fn at_most_one_focused(s: Seq<Window>) -> bool {
    focused_count(s) <= 1
}

/// A well-formed event never hands the store a list with two focused windows.
pub open spec fn event_wf(e: Event) -> bool {
    match e {
        Event::WindowsChanged { windows } => at_most_one_focused(windows@),
        _ => true,
    }
}

proof fn lemma_first_with_id_bounds(s: Seq<Window>, id: u64)
    ensures
        first_with_id(s, id) == -1 || (0 <= first_with_id(s, id) < s.len() && s[first_with_id(
            s,
            id,
        )].id == id),
        first_with_id(s, id) == -1 ==> forall|i: int| 0 <= i < s.len() ==> s[i].id != id,
        0 <= first_with_id(s, id) ==> forall|i: int|
            0 <= i < first_with_id(s, id) ==> s[i].id != id,
    decreases s.len(),
{
    if s.len() != 0 && s[0].id != id {
        lemma_first_with_id_bounds(s.drop_first(), id);
        assert forall|i: int| 1 <= i < s.len() implies s[i] == s.drop_first()[i - 1] by {}
    }
}

proof fn lemma_focused_count_zero(s: Seq<Window>)
    requires
        forall|i: int| 0 <= i < s.len() ==> !s[i].is_focused,
    ensures
        focused_count(s) == 0,
    decreases s.len(),
{
    if s.len() != 0 {
        lemma_focused_count_zero(s.drop_first());
    }
}

proof fn lemma_focused_count_update(s: Seq<Window>, i: int, w: Window)
    requires
        0 <= i < s.len(),
    ensures
        focused_count(s.update(i, w)) + (if s[i].is_focused {
            1nat
        } else {
            0nat
        }) == focused_count(s) + (if w.is_focused {
            1nat
        } else {
            0nat
        }),
    decreases s.len(),
{
    if i == 0 {
        assert(s.update(0, w).drop_first() =~= s.drop_first());
    } else {
        assert(s.update(i, w).drop_first() =~= s.drop_first().update(i - 1, w));
        lemma_focused_count_update(s.drop_first(), i - 1, w);
    }
}

proof fn lemma_focused_count_push(s: Seq<Window>, w: Window)
    ensures
        focused_count(s.push(w)) == focused_count(s) + (if w.is_focused {
            1nat
        } else {
            0nat
        }),
    decreases s.len(),
{
    if s.len() == 0 {
        assert(s.push(w)[0] == w);
        assert(s.push(w).drop_first() =~= Seq::<Window>::empty());
        assert(focused_count(Seq::<Window>::empty()) == 0);
        assert(focused_count(s) == 0);
    } else {
        assert(s.push(w)[0] == s[0]);
        assert(s.push(w).drop_first() =~= s.drop_first().push(w));
        lemma_focused_count_push(s.drop_first(), w);
    }
}

proof fn lemma_focused_count_filter(s: Seq<Window>, id: u64)
    ensures
        focused_count(remove_id(s, id)) <= focused_count(s),
    decreases s.len(),
{
    reveal(Seq::filter);
    if s.len() != 0 {
        lemma_focused_count_filter(s.drop_last(), id);
        let kept = s.drop_last().filter(|w: Window| w.id != id);
        if s.last().id != id {
            lemma_focused_count_push(kept, s.last());
        }
        lemma_focused_count_push(s.drop_last(), s.last());
        assert(s.drop_last().push(s.last()) =~= s);
    }
}

/// After any well-formed event, a store that had at most one focused window
/// still has at most one focused window.
pub proof fn lemma_focus_invariant_preserved(s: Seq<Window>, e: Event)
    requires
        at_most_one_focused(s),
        event_wf(e),
    ensures
        at_most_one_focused(apply_event(s, e)),
{
    match e {
        Event::WindowsChanged { windows } => {},
        Event::WindowOpenedOrChanged { window } => {
            lemma_first_with_id_bounds(s, window.id);
            let i = first_with_id(s, window.id);
            if window.is_focused {
                let base = clear_all(s);
                assert(forall|j: int| 0 <= j < base.len() ==> !base[j].is_focused);
                lemma_focused_count_zero(base);
                if i == -1 {
                    lemma_focused_count_push(base, window);
                } else {
                    lemma_focused_count_update(base, i, window);
                }
            } else {
                if i == -1 {
                    lemma_focused_count_push(s, window);
                } else {
                    lemma_focused_count_update(s, i, window);
                }
            }
        },
        Event::WindowClosed { id } => {
            lemma_focused_count_filter(s, id);
        },
        Event::WindowFocusChanged { id } => {
            let base = clear_all(s);
            assert(forall|j: int| 0 <= j < base.len() ==> !base[j].is_focused);
            lemma_focused_count_zero(base);
            match id {
                Some(id) => {
                    lemma_first_with_id_bounds(s, id);
                    let i = first_with_id(s, id);
                    if i != -1 {
                        lemma_focused_count_update(base, i, with_focus(s[i], true));
                    }
                },
                None => {},
            }
        },
        Event::Ignored => {},
    }
}

/// Closing the same id twice is the same as closing it once: the second
/// removal finds nothing left to remove.
pub proof fn lemma_window_closed_idempotent(s: Seq<Window>, id: u64)
    ensures
        apply_event(apply_event(s, Event::WindowClosed { id }), Event::WindowClosed { id })
            == apply_event(s, Event::WindowClosed { id }),
{
    let once = remove_id(s, id);
    lemma_remove_id_elements(s, id);
    lemma_filter_all(once, id);
}

proof fn lemma_remove_id_elements(s: Seq<Window>, id: u64)
    ensures
        forall|i: int|
            0 <= i < remove_id(s, id).len() ==> (#[trigger] remove_id(s, id)[i]).id != id,
    decreases s.len(),
{
    reveal(Seq::filter);
    if s.len() != 0 {
        lemma_remove_id_elements(s.drop_last(), id);
        let prev = remove_id(s.drop_last(), id);
        assert forall|i: int| 0 <= i < remove_id(s, id).len() implies (#[trigger] remove_id(
            s,
            id,
        )[i]).id != id by {
            if i < prev.len() {
                assert(remove_id(s, id)[i] == prev[i]);
            } else {
                assert(remove_id(s, id)[i] == s.last());
            }
        }
    }
}

proof fn lemma_filter_all(s: Seq<Window>, id: u64)
    requires
        forall|i: int| 0 <= i < s.len() ==> #[trigger] s[i].id != id,
    ensures
        s.filter(|w: Window| w.id != id) == s,
    decreases s.len(),
{
    reveal(Seq::filter);
    if s.len() != 0 {
        assert(forall|i: int|
            0 <= i < s.drop_last().len() ==> #[trigger] s.drop_last()[i].id != id);
        lemma_filter_all(s.drop_last(), id);
        assert(s.drop_last().push(s.last()) =~= s);
    }
}

impl State {
    /// An empty store.
    pub fn new() -> (s: State)
        ensures
            s.windows@ == Seq::<Window>::empty(),
    {
        State { windows: Vec::new() }
    }

    /// Applies one event to the owned window list. The new list is exactly
    /// `apply_event` of the old one; a full-list replace adopts the supplied
    /// list verbatim, and no event kind ever fails.
    pub fn update_with_event(&mut self, e: Event)
        ensures
            final(self).windows@ == apply_event(old(self).windows@, e),
            e matches Event::WindowsChanged { windows } ==> final(self).windows@ == windows@,
            at_most_one_focused(old(self).windows@) && event_wf(e) ==> at_most_one_focused(
                final(self).windows@,
            ),
    {
        proof {
            if at_most_one_focused(old(self).windows@) && event_wf(e) {
                lemma_focus_invariant_preserved(old(self).windows@, e);
            }
        }
        match e {
            Event::WindowsChanged { windows } => {
                self.windows = windows;
            },
            Event::WindowOpenedOrChanged { window } => {
                let ghost orig = self.windows@;
                if window.is_focused {
                    self.clear_focus_flags();
                }
                proof {
                    assert(forall|j: int|
                        0 <= j < orig.len() ==> #[trigger] self.windows@[j].id == orig[j].id);
                    lemma_first_with_id_same(orig, self.windows@, window.id);
                }
                let idx = find_index(&self.windows, window.id);
                match idx {
                    Some(i) => {
                        let _ = self.windows.remove(i);
                        self.windows.insert(i, window);
                        proof {
                            let base = if window.is_focused {
                                clear_all(orig)
                            } else {
                                orig
                            };
                            assert(self.windows@ =~= base.update(
                                first_with_id(orig, window.id),
                                window,
                            ));
                        }
                    },
                    None => {
                        self.windows.push(window);
                    },
                }
            },
            Event::WindowClosed { id } => {
                self.remove_windows_with_id(id);
            },
            Event::WindowFocusChanged { id } => {
                let ghost orig = self.windows@;
                self.clear_focus_flags();
                if let Some(id) = id {
                    proof {
                        lemma_first_with_id_bounds(orig, id);
                        assert(forall|j: int|
                            0 <= j < orig.len() ==> #[trigger] self.windows@[j].id == orig[j].id);
                        lemma_first_with_id_same(orig, self.windows@, id);
                    }
                    let idx = find_index(&self.windows, id);
                    if let Some(i) = idx {
                        let w = self.windows.remove(i);
                        self.windows.insert(
                            i,
                            Window {
                                id: w.id,
                                title: w.title,
                                app_id: w.app_id,
                                workspace_id: w.workspace_id,
                                is_focused: true,
                            },
                        );
                        proof {
                            assert(clear_all(orig)[i as int] == with_focus(orig[i as int], false));
                            assert(self.windows@ =~= clear_all(orig).update(
                                i as int,
                                with_focus(orig[i as int], true),
                            ));
                        }
                    }
                }
            },
            Event::Ignored => {},
        }
    }

    /// Clears the focus flag on every window; ids and the list order stay.
    fn clear_focus_flags(&mut self)
        ensures
            final(self).windows@ == clear_all(old(self).windows@),
    {
        let n = self.windows.len();
        let mut k: usize = 0;
        while k < n
            invariant
                n == self.windows@.len(),
                self.windows@.len() == old(self).windows@.len(),
                k <= n,
                forall|j: int|
                    0 <= j < k ==> self.windows@[j] == with_focus(old(self).windows@[j], false),
                forall|j: int| k <= j < n ==> self.windows@[j] == old(self).windows@[j],
            decreases n - k,
        {
            let w = self.windows.remove(k);
            self.windows.insert(
                k,
                Window {
                    id: w.id,
                    title: w.title,
                    app_id: w.app_id,
                    workspace_id: w.workspace_id,
                    is_focused: false,
                },
            );
            k = k + 1;
        }
        proof {
            assert(final(self).windows@ =~= clear_all(old(self).windows@));
        }
    }

    /// Removes every window whose id matches; the rest keep their order.
    fn remove_windows_with_id(&mut self, id: u64)
        ensures
            final(self).windows@ == remove_id(old(self).windows@, id),
    {
        let ghost orig = self.windows@;
        let n = self.windows.len();
        proof {
            assert(orig.len() == n);
        }
        let mut kept: Vec<Window> = Vec::new();
        proof {
            reveal(Seq::filter);
            assert(orig.take(0) =~= Seq::<Window>::empty());
        }
        let mut k: usize = 0;
        while self.windows.len() > 0
            invariant
                orig.len() == n,
                k + self.windows@.len() == orig.len(),
                self.windows@ =~= orig.skip(k as int),
                kept@ == orig.take(k as int).filter(|w: Window| w.id != id),
            decreases self.windows@.len(),
        {
            let w = self.windows.remove(0);
            proof {
                assert(w == orig[k as int]);
            }
            if w.id != id {
                kept.push(w);
            }
            proof {
                reveal(Seq::filter);
                assert(orig.take(k + 1).drop_last() =~= orig.take(k as int));
                assert(orig.take(k + 1).last() == orig[k as int]);
                assert(kept@ =~= orig.take(k + 1).filter(|w: Window| w.id != id));
                assert(orig.skip(k as int).drop_first() =~= orig.skip(k + 1));
            }
            k = k + 1;
        }
        proof {
            assert(orig.take(orig.len() as int) =~= orig);
        }
        self.windows = kept;
    }
}

/// Index of the first window with the given id, if any.
fn find_index(windows: &Vec<Window>, id: u64) -> (r: Option<usize>)
    ensures
        match r {
            Some(i) => i < windows@.len() && first_with_id(windows@, id) == i as int,
            None => first_with_id(windows@, id) == -1,
        },
{
    proof {
        lemma_first_with_id_bounds(windows@, id);
    }
    let n = windows.len();
    let mut k: usize = 0;
    while k < n
        invariant
            n == windows@.len(),
            k <= n,
            forall|j: int| 0 <= j < k ==> windows@[j].id != id,
        decreases n - k,
    {
        if windows[k].id == id {
            proof {
                lemma_first_with_id_found(windows@, id, k as int);
            }
            return Some(k);
        }
        k = k + 1;
    }
    None
}

proof fn lemma_first_with_id_found(s: Seq<Window>, id: u64, k: int)
    requires
        0 <= k < s.len(),
        s[k].id == id,
        forall|j: int| 0 <= j < k ==> s[j].id != id,
    ensures
        first_with_id(s, id) == k,
    decreases s.len(),
{
    if k > 0 {
        lemma_first_with_id_found(s.drop_first(), id, k - 1);
    }
}

proof fn lemma_first_with_id_same(a: Seq<Window>, b: Seq<Window>, id: u64)
    requires
        a.len() == b.len(),
        forall|j: int| 0 <= j < a.len() ==> #[trigger] b[j].id == a[j].id,
    ensures
        first_with_id(a, id) == first_with_id(b, id),
    decreases a.len(),
{
    if a.len() != 0 {
        lemma_first_with_id_same(a.drop_first(), b.drop_first(), id);
    }
}

} // verus!
