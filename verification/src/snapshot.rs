use vstd::prelude::*;
use vstd::multiset::Multiset;
use crate::cache::{cache_lookup, CacheMap, get_valid, set_path};
use crate::config::SortingMode;
use crate::icons::resolve;
use crate::state::State;
use crate::text::{lex_le, lemma_lex_total, lemma_lex_trans, opt_str_view, str_le, suffix_after_last};

verus! {

broadcast use vstd::seq_lib::group_to_multiset_ensures;

/// One window as it appears on the wire: id, application id (or
/// `unknown`), title (or empty), resolved icon path (or empty), and the
/// focus flag.
pub struct WindowEntry {
    pub id: u64,
    pub app_id: String,
    pub title: String,
    pub icon_path: String,
    pub is_focused: bool,
}

/// One workspace group of the snapshot.
pub struct Workspace {
    pub id: u64,
    pub windows: Vec<WindowEntry>,
}

/// The snapshot emitted after each processed event: workspace groups
/// ordered ascending by id.
pub struct SerializableState {
    pub workspaces: Vec<Workspace>,
}

/// The entries bound for workspace `wsid`, in input order.
pub open spec fn ws_filter(items: Seq<(u64, WindowEntry)>, wsid: u64) -> Seq<WindowEntry> {
    items.filter(|p: (u64, WindowEntry)| p.0 == wsid).map_values(|p: (u64, WindowEntry)| p.1)
}

/// Windows ordered ascending by application id (code-point order).
pub open spec fn sorted_by_app(s: Seq<WindowEntry>) -> bool {
    forall|i: int, j: int| 0 <= i < j < s.len() ==> lex_le(s[i].app_id@, s[j].app_id@)
}

/// Windows ordered ascending by numeric window id.
pub open spec fn sorted_by_wid(s: Seq<WindowEntry>) -> bool {
    forall|i: int, j: int| 0 <= i < j < s.len() ==> s[i].id <= s[j].id
}

/// Whether some group in the list carries this workspace id.
pub open spec fn has_group(ws: Seq<Workspace>, id: u64) -> bool {
    exists|i: int| 0 <= i < ws.len() && (#[trigger] ws[i].id) == id
}

proof fn lemma_has_group_same_ids(pre: Seq<Workspace>, post: Seq<Workspace>, id: u64)
    requires
        has_group(pre, id),
        post.len() == pre.len(),
        forall|i: int| 0 <= i < pre.len() ==> (#[trigger] post[i].id) == pre[i].id,
    ensures
        has_group(post, id),
{
    let i = choose|i: int| 0 <= i < pre.len() && (#[trigger] pre[i].id) == id;
    assert(post[i].id == id);
}

proof fn lemma_has_group_insert(pre: Seq<Workspace>, post: Seq<Workspace>, p: int, id: u64)
    requires
        has_group(pre, id),
        0 <= p <= pre.len(),
        post.len() == pre.len() + 1,
        forall|i: int| 0 <= i < p ==> #[trigger] post[i] == pre[i],
        forall|i: int| p <= i < pre.len() ==> #[trigger] post[i + 1] == pre[i],
    ensures
        has_group(post, id),
{
    let i = choose|i: int| 0 <= i < pre.len() && (#[trigger] pre[i].id) == id;
    if i < p {
        assert(post[i].id == id);
    } else {
        assert(post[i + 1].id == id);
    }
}

/// How many windows all groups hold together.
pub open spec fn total_windows(ws: Seq<Workspace>) -> int
    decreases ws.len(),
{
    if ws.len() == 0 {
        0
    } else {
        total_windows(ws.drop_last()) + ws.last().windows@.len()
    }
}

proof fn lemma_total_update(ws: Seq<Workspace>, p: int, g: Workspace)
    requires
        0 <= p < ws.len(),
    ensures
        total_windows(ws.update(p, g)) == total_windows(ws) - ws[p].windows@.len()
            + g.windows@.len(),
    decreases ws.len(),
{
    if p == ws.len() - 1 {
        assert(ws.update(p, g).drop_last() =~= ws.drop_last());
        assert(ws.update(p, g).last() == g);
    } else {
        assert(ws.update(p, g).drop_last() =~= ws.drop_last().update(p, g));
        assert(ws.update(p, g).last() == ws.last());
        lemma_total_update(ws.drop_last(), p, g);
    }
}

proof fn lemma_total_insert(ws: Seq<Workspace>, p: int, g: Workspace)
    requires
        0 <= p <= ws.len(),
    ensures
        total_windows(ws.insert(p, g)) == total_windows(ws) + g.windows@.len(),
    decreases ws.len(),
{
    if p == ws.len() {
        assert(ws.insert(p, g).drop_last() =~= ws);
        assert(ws.insert(p, g).last() == g);
    } else {
        assert(ws.insert(p, g).drop_last() =~= ws.drop_last().insert(p, g));
        assert(ws.insert(p, g).last() == ws.last());
        lemma_total_insert(ws.drop_last(), p, g);
    }
}

proof fn lemma_total_same_lens(a: Seq<Workspace>, b: Seq<Workspace>)
    requires
        a.len() == b.len(),
        forall|i: int| 0 <= i < a.len() ==> (#[trigger] b[i]).windows@.len()
            == a[i].windows@.len(),
    ensures
        total_windows(a) == total_windows(b),
    decreases a.len(),
{
    if a.len() != 0 {
        lemma_total_same_lens(a.drop_last(), b.drop_last());
    }
}

proof fn lemma_ws_filter_push(items: Seq<(u64, WindowEntry)>, p: (u64, WindowEntry), wsid: u64)
    ensures
        ws_filter(items.push(p), wsid) == if p.0 == wsid {
            ws_filter(items, wsid).push(p.1)
        } else {
            ws_filter(items, wsid)
        },
{
    reveal(Seq::filter);
    assert(items.push(p).drop_last() =~= items);
    assert(items.push(p).last() == p);
    if p.0 == wsid {
        assert(ws_filter(items.push(p), wsid) =~= ws_filter(items, wsid).push(p.1));
    } else {
        assert(ws_filter(items.push(p), wsid) =~= ws_filter(items, wsid));
    }
}

/// Membership in a workspace's filtered entries is exactly having an
/// input item with that workspace id and that entry.
proof fn lemma_ws_filter_contains(items: Seq<(u64, WindowEntry)>, wsid: u64, e: WindowEntry)
    ensures
        ws_filter(items, wsid).contains(e) <==> exists|k: int|
            0 <= k < items.len() && items[k].0 == wsid && items[k].1 == e,
    decreases items.len(),
{
    if items.len() == 0 {
        reveal(Seq::filter);
        assert(ws_filter(items, wsid).len() == 0);
    } else {
        let head = items.drop_last();
        let last = items.last();
        lemma_ws_filter_contains(head, wsid, e);
        lemma_ws_filter_push(head, last, wsid);
        assert(head.push(last) =~= items);
        let f = ws_filter(items, wsid);
        let fh = ws_filter(head, wsid);
        if last.0 == wsid {
            assert(f == fh.push(last.1));
            assert(f.contains(e) <==> (fh.contains(e) || last.1 == e)) by {
                if fh.contains(e) {
                    let i = choose|i: int| 0 <= i < fh.len() && fh[i] == e;
                    assert(f[i] == e);
                }
                if last.1 == e {
                    assert(f[f.len() - 1] == e);
                }
                if f.contains(e) {
                    let i = choose|i: int| 0 <= i < f.len() && f[i] == e;
                    if i < fh.len() {
                        assert(fh[i] == e);
                    }
                }
            }
            if fh.contains(e) || last.1 == e {
                if fh.contains(e) {
                    let k = choose|k: int|
                        0 <= k < head.len() && head[k].0 == wsid && head[k].1 == e;
                    assert(items[k].0 == wsid && items[k].1 == e);
                } else {
                    assert(items[items.len() - 1].0 == wsid && items[items.len() - 1].1 == e);
                }
            }
            if exists|k: int| 0 <= k < items.len() && items[k].0 == wsid && items[k].1 == e {
                let k = choose|k: int|
                    0 <= k < items.len() && items[k].0 == wsid && items[k].1 == e;
                if k < head.len() {
                    assert(head[k].0 == wsid && head[k].1 == e);
                }
            }
        } else {
            assert(f == fh);
            if exists|k: int| 0 <= k < items.len() && items[k].0 == wsid && items[k].1 == e {
                let k = choose|k: int|
                    0 <= k < items.len() && items[k].0 == wsid && items[k].1 == e;
                assert(k < head.len());
                assert(head[k].0 == wsid && head[k].1 == e);
            }
            if fh.contains(e) {
                let k = choose|k: int| 0 <= k < head.len() && head[k].0 == wsid && head[k].1 == e;
                assert(items[k].0 == wsid && items[k].1 == e);
            }
        }
    }
}

/// Sorts windows ascending by application id; the result is a
/// permutation of the input.
fn sort_windows_by_app(v: Vec<WindowEntry>) -> (r: Vec<WindowEntry>)
    ensures
        sorted_by_app(r@),
        r@.to_multiset() == v@.to_multiset(),
        r@.len() == v@.len(),
{
    let ghost orig = v@;
    let mut rem = v;
    let mut out: Vec<WindowEntry> = Vec::new();
    proof {
        assert(out@.to_multiset().add(rem@.to_multiset()) =~= orig.to_multiset());
    }
    while rem.len() > 0
        invariant
            sorted_by_app(out@),
            forall|i: int, j: int|
                0 <= i < out@.len() && 0 <= j < rem@.len() ==> lex_le(
                    out@[i].app_id@,
                    rem@[j].app_id@,
                ),
            out@.to_multiset().add(rem@.to_multiset()) == orig.to_multiset(),
            out@.len() + rem@.len() == orig.len(),
        decreases rem@.len(),
    {
        let mut m: usize = 0;
        let mut t: usize = 1;
        proof {
            lemma_lex_total(rem@[0].app_id@, rem@[0].app_id@);
        }
        while t < rem.len()
            invariant
                rem@.len() > 0,
                m < t <= rem@.len(),
                forall|j: int| 0 <= j < t ==> lex_le(rem@[m as int].app_id@, rem@[j].app_id@),
            decreases rem@.len() - t,
        {
            if str_le(rem[t].app_id.as_str(), rem[m].app_id.as_str()) {
                proof {
                    lemma_lex_total(rem@[t as int].app_id@, rem@[t as int].app_id@);
                    assert forall|j: int| 0 <= j < t implies lex_le(
                        rem@[t as int].app_id@,
                        rem@[j].app_id@,
                    ) by {
                        lemma_lex_trans(
                            rem@[t as int].app_id@,
                            rem@[m as int].app_id@,
                            rem@[j].app_id@,
                        );
                    }
                }
                m = t;
            } else {
                proof {
                    lemma_lex_total(rem@[t as int].app_id@, rem@[m as int].app_id@);
                }
            }
            t = t + 1;
        }
        let ghost pre_rem = rem@;
        let ghost pre_out = out@;
        let x = rem.remove(m);
        out.push(x);
        proof {
            assert(pre_rem.contains(x)) by {
                assert(pre_rem[m as int] == x);
            }
            assert(out@.to_multiset() =~= pre_out.to_multiset().insert(x));
            assert(rem@.to_multiset() =~= pre_rem.to_multiset().remove(x));
            assert(out@.to_multiset().add(rem@.to_multiset()) =~= orig.to_multiset());
            assert forall|i: int, j: int|
                0 <= i < out@.len() && 0 <= j < rem@.len() implies lex_le(
                out@[i].app_id@,
                rem@[j].app_id@,
            ) by {
                let rj = if j < m {
                    j
                } else {
                    j + 1
                };
                assert(rem@[j] == pre_rem[rj]);
                if i < pre_out.len() {
                    assert(out@[i] == pre_out[i]);
                    assert(lex_le(pre_out[i].app_id@, pre_rem[rj].app_id@));
                } else {
                    assert(out@[i] == x);
                    assert(lex_le(pre_rem[m as int].app_id@, pre_rem[rj].app_id@));
                }
            }
            assert forall|i: int, j: int| 0 <= i < j < out@.len() implies lex_le(
                out@[i].app_id@,
                out@[j].app_id@,
            ) by {
                assert(out@[i] == if i < pre_out.len() {
                    pre_out[i]
                } else {
                    x
                });
                if j < pre_out.len() {
                    assert(out@[j] == pre_out[j]);
                    assert(lex_le(pre_out[i].app_id@, pre_out[j].app_id@));
                } else {
                    assert(out@[j] == x);
                    if i < pre_out.len() {
                        assert(lex_le(pre_out[i].app_id@, pre_rem[m as int].app_id@));
                    }
                }
            }
        }
    }
    proof {
        assert(rem@.to_multiset() =~= Multiset::<WindowEntry>::empty());
        assert(out@.to_multiset().add(Multiset::<WindowEntry>::empty()) =~= out@.to_multiset());
    }
    out
}

/// Sorts windows ascending by numeric window id; the result is a
/// permutation of the input.
fn sort_windows_by_id(v: Vec<WindowEntry>) -> (r: Vec<WindowEntry>)
    ensures
        sorted_by_wid(r@),
        r@.to_multiset() == v@.to_multiset(),
        r@.len() == v@.len(),
{
    let ghost orig = v@;
    let mut rem = v;
    let mut out: Vec<WindowEntry> = Vec::new();
    proof {
        assert(out@.to_multiset().add(rem@.to_multiset()) =~= orig.to_multiset());
    }
    while rem.len() > 0
        invariant
            sorted_by_wid(out@),
            forall|i: int, j: int|
                0 <= i < out@.len() && 0 <= j < rem@.len() ==> out@[i].id <= rem@[j].id,
            out@.to_multiset().add(rem@.to_multiset()) == orig.to_multiset(),
            out@.len() + rem@.len() == orig.len(),
        decreases rem@.len(),
    {
        let mut m: usize = 0;
        let mut t: usize = 1;
        while t < rem.len()
            invariant
                rem@.len() > 0,
                m < t <= rem@.len(),
                forall|j: int| 0 <= j < t ==> rem@[m as int].id <= rem@[j].id,
            decreases rem@.len() - t,
        {
            if rem[t].id < rem[m].id {
                m = t;
            }
            t = t + 1;
        }
        let ghost pre_rem = rem@;
        let ghost pre_out = out@;
        let x = rem.remove(m);
        out.push(x);
        proof {
            assert(pre_rem.contains(x)) by {
                assert(pre_rem[m as int] == x);
            }
            assert(out@.to_multiset() =~= pre_out.to_multiset().insert(x));
            assert(rem@.to_multiset() =~= pre_rem.to_multiset().remove(x));
            assert(out@.to_multiset().add(rem@.to_multiset()) =~= orig.to_multiset());
            assert forall|i: int, j: int|
                0 <= i < out@.len() && 0 <= j < rem@.len() implies out@[i].id <= rem@[j].id by {
                if j < m {
                    assert(rem@[j] == pre_rem[j]);
                } else {
                    assert(rem@[j] == pre_rem[j + 1]);
                }
                if i < pre_out.len() {
                } else {
                    assert(out@[i] == x);
                }
            }
        }
    }
    proof {
        assert(rem@.to_multiset() =~= Multiset::<WindowEntry>::empty());
        assert(out@.to_multiset().add(Multiset::<WindowEntry>::empty()) =~= out@.to_multiset());
    }
    out
}

/// Groups the items by workspace id into groups ordered ascending by id,
/// keeping each group's windows in input order.
fn group_phase(items: Vec<(u64, WindowEntry)>) -> (r: Vec<Workspace>)
    ensures
        forall|i: int, j: int| 0 <= i < j < r@.len() ==> r@[i].id < r@[j].id,
        forall|i: int| 0 <= i < r@.len() ==> r@[i].windows@ == ws_filter(items@, r@[i].id),
        forall|i: int| 0 <= i < r@.len() ==> r@[i].windows@.len() > 0,
        forall|k: int| #![trigger items@[k]]
            0 <= k < items@.len() ==> has_group(r@, items@[k].0),
        total_windows(r@) == items@.len(),
{
    let ghost orig = items@;
    let n_all = items.len();
    proof {
        assert(orig.len() == n_all);
    }
    let mut rem = items;
    let mut out: Vec<Workspace> = Vec::new();
    let mut k: usize = 0;
    proof {
        assert(orig.take(0) =~= Seq::<(u64, WindowEntry)>::empty());
        reveal(Seq::filter);
    }
    while rem.len() > 0
        invariant
            orig.len() == n_all,
            k + rem@.len() == orig.len(),
            rem@ =~= orig.skip(k as int),
            forall|i: int, j: int| 0 <= i < j < out@.len() ==> out@[i].id < out@[j].id,
            forall|i: int|
                0 <= i < out@.len() ==> out@[i].windows@ == ws_filter(
                    orig.take(k as int),
                    out@[i].id,
                ),
            forall|i: int| 0 <= i < out@.len() ==> out@[i].windows@.len() > 0,
            forall|j: int| #![trigger orig[j]]
                0 <= j < k ==> has_group(out@, orig[j].0),
            total_windows(out@) == k,
        decreases rem@.len(),
    {
        let ghost done = orig.take(k as int);
        let ghost pre_out = out@;
        let item = rem.remove(0);
        let wsid = item.0;
        proof {
            assert(item == orig[k as int]);
            assert(orig.skip(k as int).drop_first() =~= orig.skip(k + 1));
            assert(orig.take(k + 1) =~= done.push(item));
        }
        let mut p: usize = 0;
        while p < out.len() && out[p].id < wsid
            invariant
                p <= out@.len(),
                out@ == pre_out,
                forall|q: int| 0 <= q < p ==> out@[q].id < wsid,
            decreases out@.len() - p,
        {
            p = p + 1;
        }
        let is_existing = p < out.len() && out[p].id == wsid;
        if is_existing {
            let mut g = out.remove(p);
            g.windows.push(item.1);
            out.insert(p, g);
            proof {
                assert(out@ =~= pre_out.update(p as int, out@[p as int]));
                lemma_total_update(pre_out, p as int, out@[p as int]);
                assert(out@.len() == pre_out.len());
                assert(forall|i: int|
                    0 <= i < out@.len() && i != p ==> out@[i] == pre_out[i]);
                assert(out@[p as int].id == wsid);
                assert(out@[p as int].windows@ == pre_out[p as int].windows@.push(item.1));
                assert forall|i: int| 0 <= i < out@.len() implies out@[i].windows@ == ws_filter(
                    orig.take(k + 1),
                    out@[i].id,
                ) by {
                    lemma_ws_filter_push(done, item, out@[i].id);
                    if i != p {
                        assert(out@[i].id != wsid) by {
                            if i < p {
                                assert(pre_out[i].id < wsid);
                            } else {
                                assert(pre_out[p as int].id < pre_out[i].id);
                            }
                        }
                    }
                }
                assert forall|j: int| #![trigger orig[j]] 0 <= j < k + 1 implies has_group(
                    out@,
                    orig[j].0,
                ) by {
                    if j < k {
                        lemma_has_group_same_ids(pre_out, out@, orig[j].0);
                    } else {
                        assert(out@[p as int].id == orig[j].0);
                    }
                }
            }
        } else {
            proof {
                assert(forall|q: int| p <= q < pre_out.len() ==> pre_out[q].id > wsid) by {
                    assert(forall|q: int|
                        p < q < pre_out.len() ==> pre_out[p as int].id < pre_out[q].id);
                }
                lemma_ws_filter_push(done, item, wsid);
                assert(ws_filter(done, wsid).len() == 0) by {
                    if ws_filter(done, wsid).len() > 0 {
                        let e = ws_filter(done, wsid)[0];
                        assert(ws_filter(done, wsid).contains(e));
                        lemma_ws_filter_contains(done, wsid, e);
                        let j = choose|j: int|
                            0 <= j < done.len() && done[j].0 == wsid && done[j].1 == e;
                        assert(orig[j] == done[j]);
                        assert(has_group(pre_out, wsid));
                        let i = choose|i: int|
                            0 <= i < pre_out.len() && (#[trigger] pre_out[i].id) == wsid;
                        assert(false);
                    }
                }
            }
            let mut wins: Vec<WindowEntry> = Vec::new();
            wins.push(item.1);
            out.insert(p, Workspace { id: wsid, windows: wins });
            proof {
                assert(out@ =~= pre_out.insert(p as int, out@[p as int]));
                lemma_total_insert(pre_out, p as int, out@[p as int]);
                assert(out@.len() == pre_out.len() + 1);
                assert(forall|i: int| 0 <= i < p ==> out@[i] == pre_out[i]);
                assert(forall|i: int|
                    p < i < out@.len() ==> out@[i] == pre_out[i - 1]);
                assert(out@[p as int].id == wsid);
                assert(out@[p as int].windows@ =~= ws_filter(done, wsid).push(item.1));
                assert forall|i: int, j: int| 0 <= i < j < out@.len() implies out@[i].id
                    < out@[j].id by {
                    if i < p && j > p {
                        assert(pre_out[i].id < wsid || pre_out[i].id > wsid || pre_out[i].id
                            == wsid);
                    }
                }
                assert forall|i: int| 0 <= i < out@.len() implies out@[i].windows@ == ws_filter(
                    orig.take(k + 1),
                    out@[i].id,
                ) by {
                    lemma_ws_filter_push(done, item, out@[i].id);
                    if i != p {
                        assert(out@[i].id != wsid);
                    }
                }
                assert forall|j: int| #![trigger orig[j]] 0 <= j < k + 1 implies has_group(
                    out@,
                    orig[j].0,
                ) by {
                    if j < k {
                        lemma_has_group_insert(pre_out, out@, p as int, orig[j].0);
                    } else {
                        assert(out@[p as int].id == orig[j].0);
                    }
                }
            }
        }
        k = k + 1;
    }
    proof {
        assert(orig.take(k as int) =~= orig);
        assert(orig == items@);
        assert forall|j: int| #![trigger items@[j]] 0 <= j < items@.len() implies has_group(
            out@,
            items@[j].0,
        ) by {
            assert(has_group(out@, orig[j].0));
        }
    }
    out
}

/// Groups windows by workspace id and orders them: workspace groups
/// ascend by id unconditionally; windows inside a group keep input order,
/// or ascend by application id or by window id, as the sorting mode says.
pub fn group_windows(items: Vec<(u64, WindowEntry)>, sorting_mode: &SortingMode) -> (r: Vec<
    Workspace,
>)
    ensures
        forall|i: int, j: int| 0 <= i < j < r@.len() ==> r@[i].id < r@[j].id,
        forall|i: int| 0 <= i < r@.len() ==> r@[i].windows@.len() > 0,
        forall|k: int| #![trigger items@[k]]
            0 <= k < items@.len() ==> has_group(r@, items@[k].0),
        total_windows(r@) == items@.len(),
        forall|i: int|
            0 <= i < r@.len() ==> match *sorting_mode {
                SortingMode::Default => r@[i].windows@ == ws_filter(items@, r@[i].id),
                SortingMode::AZ => r@[i].windows@.to_multiset() == ws_filter(
                    items@,
                    r@[i].id,
                ).to_multiset() && sorted_by_app(r@[i].windows@),
                SortingMode::Id => r@[i].windows@.to_multiset() == ws_filter(
                    items@,
                    r@[i].id,
                ).to_multiset() && sorted_by_wid(r@[i].windows@),
            },
{
    let ghost items_model = items@;
    let grouped = group_phase(items);
    let mut out = grouped;
    let n = out.len();
    let ghost base = out@;
    let mut k: usize = 0;
    while k < n
        invariant
            k <= n,
            n == out@.len(),
            out@.len() == base.len(),
            forall|i: int| 0 <= i < base.len() ==> out@[i].id == base[i].id,
            forall|i: int| k <= i < base.len() ==> out@[i] == base[i],
            forall|i: int|
                0 <= i < k ==> match *sorting_mode {
                    SortingMode::Default => out@[i].windows@ == base[i].windows@,
                    SortingMode::AZ => out@[i].windows@.to_multiset()
                        == base[i].windows@.to_multiset() && sorted_by_app(out@[i].windows@),
                    SortingMode::Id => out@[i].windows@.to_multiset()
                        == base[i].windows@.to_multiset() && sorted_by_wid(out@[i].windows@),
                },
            forall|i: int| 0 <= i < out@.len() ==> out@[i].windows@.len()
                == base[i].windows@.len(),
        decreases n - k,
    {
        let keep_order = match sorting_mode {
            SortingMode::Default => true,
            _ => false,
        };
        if !keep_order {
            let g = out.remove(k);
            let sorted_wins = match sorting_mode {
                SortingMode::AZ => sort_windows_by_app(g.windows),
                _ => sort_windows_by_id(g.windows),
            };
            out.insert(k, Workspace { id: g.id, windows: sorted_wins });
        }
        k = k + 1;
    }
    proof {
        assert forall|i: int, j: int| 0 <= i < j < out@.len() implies out@[i].id
            < out@[j].id by {
            assert(base[i].id < base[j].id);
        }
        assert forall|i: int| 0 <= i < out@.len() implies out@[i].windows@.len() > 0 by {
            assert(base[i].windows@.len() > 0);
        }
        assert forall|j: int| #![trigger items_model[j]] 0 <= j < items_model.len() implies
            has_group(out@, items_model[j].0) by {
            assert(has_group(base, items_model[j].0));
            lemma_has_group_same_ids(base, out@, items_model[j].0);
        }
        lemma_total_same_lens(base, out@);
        assert forall|i: int| 0 <= i < out@.len() implies (match *sorting_mode {
            SortingMode::Default => out@[i].windows@ == ws_filter(items_model, out@[i].id),
            SortingMode::AZ => out@[i].windows@.to_multiset() == ws_filter(
                items_model,
                out@[i].id,
            ).to_multiset() && sorted_by_app(out@[i].windows@),
            SortingMode::Id => out@[i].windows@.to_multiset() == ws_filter(
                items_model,
                out@[i].id,
            ).to_multiset() && sorted_by_wid(out@[i].windows@),
        }) by {
            assert(base[i].windows@ == ws_filter(items_model, base[i].id));
            assert(out@[i].id == base[i].id);
        }
    }
    out
}


/// How one store window projects into a wire window: same id and focus
/// flag, the application id or `unknown`, the title or empty. The icon
/// path is whatever resolution produced and is not constrained here.
pub open spec fn entry_matches(w: crate::state::Window, e: WindowEntry) -> bool {
    &&& e.id == w.id
    &&& e.is_focused == w.is_focused
    &&& (match w.app_id {
        Some(a) => e.app_id@ == a@,
        None => e.app_id@ == "unknown"@,
    })
    &&& (match w.title {
        Some(t) => e.title@ == t@,
        None => e.title@ == Seq::<char>::empty(),
    })
}

/// The workspace group a window lands in: its workspace id (0 when it
/// has none), or 0 for everything when workspace separation is off.
pub open spec fn ws_key_of(w: crate::state::Window, seperate: bool) -> u64 {
    if seperate {
        match w.workspace_id {
            Some(x) => x,
            None => 0,
        }
    } else {
        0
    }
}

/// Some store window with this workspace key projects to `e`.
pub open spec fn entry_from_state(
    windows: Seq<crate::state::Window>,
    seperate: bool,
    wsid: u64,
    e: WindowEntry,
) -> bool {
    exists|k: int|
        0 <= k < windows.len() && ws_key_of(#[trigger] windows[k], seperate) == wsid
            && entry_matches(windows[k], e)
}

/// The snapshot holds, in the group with this window's workspace key, a
/// projection of this window.
pub open spec fn snapshot_contains(
    ws: Seq<Workspace>,
    wsid: u64,
    w: crate::state::Window,
) -> bool {
    exists|i: int, j: int|
        0 <= i < ws.len() && 0 <= j < (#[trigger] ws[i].windows@[j], ws[i]).1.windows@.len()
            && ws[i].id == wsid && entry_matches(w, ws[i].windows@[j])
}

/// The ids of the store's windows whose workspace key is `wsid`, in
/// store order.
pub open spec fn state_ids_for(
    windows: Seq<crate::state::Window>,
    seperate: bool,
    wsid: u64,
) -> Seq<u64> {
    windows.filter(|w: crate::state::Window| ws_key_of(w, seperate) == wsid).map_values(
        |w: crate::state::Window| w.id,
    )
}

proof fn lemma_state_ids_push(
    windows: Seq<crate::state::Window>,
    w: crate::state::Window,
    seperate: bool,
    wsid: u64,
)
    ensures
        state_ids_for(windows.push(w), seperate, wsid) == if ws_key_of(w, seperate) == wsid {
            state_ids_for(windows, seperate, wsid).push(w.id)
        } else {
            state_ids_for(windows, seperate, wsid)
        },
{
    reveal(Seq::filter);
    assert(windows.push(w).drop_last() =~= windows);
    assert(windows.push(w).last() == w);
    if ws_key_of(w, seperate) == wsid {
        assert(state_ids_for(windows.push(w), seperate, wsid) =~= state_ids_for(
            windows,
            seperate,
            wsid,
        ).push(w.id));
    } else {
        assert(state_ids_for(windows.push(w), seperate, wsid) =~= state_ids_for(
            windows,
            seperate,
            wsid,
        ));
    }
}

/// The window ids of wire entries, in order.
pub open spec fn entry_ids(s: Seq<WindowEntry>) -> Seq<u64> {
    s.map_values(|e: WindowEntry| e.id)
}

/// Items built one to one from store windows carry, per workspace key,
/// exactly the store's window ids in store order.
proof fn lemma_ids_match(
    im: Seq<(u64, WindowEntry)>,
    sw: Seq<crate::state::Window>,
    seperate: bool,
    wsid: u64,
)
    requires
        im.len() == sw.len(),
        forall|j: int|
            0 <= j < im.len() ==> (#[trigger] im[j]).0 == ws_key_of(sw[j], seperate)
                && im[j].1.id == sw[j].id,
    ensures
        entry_ids(ws_filter(im, wsid)) == state_ids_for(sw, seperate, wsid),
    decreases im.len(),
{
    if im.len() == 0 {
        reveal(Seq::filter);
        assert(entry_ids(ws_filter(im, wsid)) =~= state_ids_for(sw, seperate, wsid));
    } else {
        let imh = im.drop_last();
        let swh = sw.drop_last();
        assert forall|j: int| 0 <= j < imh.len() implies (#[trigger] imh[j]).0 == ws_key_of(
            swh[j],
            seperate,
        ) && imh[j].1.id == swh[j].id by {
            assert(imh[j] == im[j]);
            assert(swh[j] == sw[j]);
        }
        lemma_ids_match(imh, swh, seperate, wsid);
        lemma_ws_filter_push(imh, im.last(), wsid);
        lemma_state_ids_push(swh, sw.last(), seperate, wsid);
        assert(imh.push(im.last()) =~= im);
        assert(swh.push(sw.last()) =~= sw);
        assert(im.last().0 == ws_key_of(sw.last(), seperate));
        assert(im.last().1.id == sw.last().id);
        if im.last().0 == wsid {
            assert(entry_ids(ws_filter(imh, wsid).push(im.last().1)) =~= entry_ids(
                ws_filter(imh, wsid),
            ).push(im.last().1.id));
            assert(entry_ids(ws_filter(im, wsid)) =~= state_ids_for(sw, seperate, wsid));
        } else {
            assert(entry_ids(ws_filter(im, wsid)) =~= state_ids_for(sw, seperate, wsid));
        }
    }
}

/// The cache key a window resolves under: its application id, or the
/// fixed sentinel when it has none.
pub open spec fn cache_key_of(w: crate::state::Window) -> Seq<char> {
    match w.app_id {
        Some(a) => a@,
        None => "application-default-icon"@,
    }
}

/// Every window's key has a stored path in the mapping.
pub open spec fn all_hit(
    m: Seq<(Seq<char>, Seq<char>)>,
    windows: Seq<crate::state::Window>,
) -> bool {
    forall|k: int|
        0 <= k < windows.len() ==> cache_lookup(m, cache_key_of(#[trigger] windows[k])) is Some
}

/// Some store window with this workspace key projects to `e`, and `e`'s
/// icon path is exactly the one the mapping stores for that window's key.
pub open spec fn entry_from_cache(
    windows: Seq<crate::state::Window>,
    seperate: bool,
    m: Seq<(Seq<char>, Seq<char>)>,
    wsid: u64,
    e: WindowEntry,
) -> bool {
    exists|k: int|
        0 <= k < windows.len() && ws_key_of(#[trigger] windows[k], seperate) == wsid
            && entry_matches(windows[k], e) && cache_lookup(m, cache_key_of(windows[k])) == Some(
            e.icon_path@,
        )
}

proof fn lemma_contains_same(a: Seq<WindowEntry>, b: Seq<WindowEntry>)
    requires
        a == b || a.to_multiset() == b.to_multiset(),
    ensures
        forall|e: WindowEntry| #![trigger a.contains(e)] #![trigger b.contains(e)]
            a.contains(e) <==> b.contains(e),
{
    assert forall|e: WindowEntry| #![trigger a.contains(e)] #![trigger b.contains(e)]
        a.contains(e) <==> b.contains(e) by {
        if a == b {
        } else {
            assert(a.contains(e) <==> a.to_multiset().count(e) > 0);
            assert(b.contains(e) <==> b.to_multiset().count(e) > 0);
        }
    }
}

impl SerializableState {
    /// Assembles one snapshot from the store's current windows. For every
    /// window, a validity-checked cache hit short-circuits resolution; on
    /// a miss the fallback chain resolves, the result is normalized
    /// through the caller-supplied `normalize` step into the process's
    /// icon directory, and the path (the normalized copy's when that step
    /// wrote one, the resolved one otherwise) is written through the
    /// cache. Windows are then grouped by workspace key and ordered; the
    /// snapshot shows each window's resolved path for this tick.
    ///
    /// `normalize` is handed (resolved path, target size, output path)
    /// and says whether it wrote a normalized copy; resizing and
    /// sharpening go through the image crate's floating-point pipeline,
    /// which the verified library does not touch, so the caller supplies
    /// that step.
    pub fn from_parts<F: Fn(&str, u16, &str) -> bool>(
        state: &State,
        icon_size: &u16,
        icon_theme: &String,
        seperate_workspaces: &bool,
        sorting_mode: &SortingMode,
        icon_cache: &mut CacheMap,
        check_cache_validity: &bool,
        icons_dir: &str,
        normalize: F,
    ) -> (r: SerializableState)
        requires
            old(icon_cache).wf(),
            forall|args: (&str, u16, &str)| #[trigger] normalize.requires(args),
        ensures
            final(icon_cache).wf(),
            forall|i: int, j: int|
                0 <= i < j < r.workspaces@.len() ==> r.workspaces@[i].id < r.workspaces@[j].id,
            *sorting_mode == SortingMode::AZ ==> forall|i: int|
                0 <= i < r.workspaces@.len() ==> sorted_by_app(
                    (#[trigger] r.workspaces@[i]).windows@,
                ),
            *sorting_mode == SortingMode::Id ==> forall|i: int|
                0 <= i < r.workspaces@.len() ==> sorted_by_wid(
                    (#[trigger] r.workspaces@[i]).windows@,
                ),
            forall|i: int, j: int|
                #![trigger r.workspaces@[i].windows@[j]]
                0 <= i < r.workspaces@.len() && 0 <= j < r.workspaces@[i].windows@.len()
                    ==> entry_from_state(
                    state.windows@,
                    *seperate_workspaces,
                    r.workspaces@[i].id,
                    r.workspaces@[i].windows@[j],
                ),
            forall|k: int|
                #![trigger state.windows@[k]]
                0 <= k < state.windows@.len() ==> snapshot_contains(
                    r.workspaces@,
                    ws_key_of(state.windows@[k], *seperate_workspaces),
                    state.windows@[k],
                ),
            total_windows(r.workspaces@) == state.windows@.len(),
            forall|i: int|
                0 <= i < r.workspaces@.len() ==> (#[trigger] r.workspaces@[i]).windows@.len() > 0,
            *sorting_mode == SortingMode::Default ==> forall|i: int|
                0 <= i < r.workspaces@.len() ==> entry_ids((#[trigger] r.workspaces@[i]).windows@)
                    == state_ids_for(
                    state.windows@,
                    *seperate_workspaces,
                    r.workspaces@[i].id,
                ),
            old(icon_cache).is_dirty() ==> final(icon_cache).is_dirty(),
            !*check_cache_validity && all_hit(old(icon_cache).model(), state.windows@)
                ==> final(icon_cache).model() == old(icon_cache).model()
                && final(icon_cache).is_dirty() == old(icon_cache).is_dirty(),
            !*check_cache_validity && !all_hit(old(icon_cache).model(), state.windows@)
                ==> final(icon_cache).is_dirty(),
            !*check_cache_validity && all_hit(old(icon_cache).model(), state.windows@)
                ==> forall|i: int, j: int|
                #![trigger r.workspaces@[i].windows@[j]]
                0 <= i < r.workspaces@.len() && 0 <= j < r.workspaces@[i].windows@.len()
                    ==> entry_from_cache(
                    state.windows@,
                    *seperate_workspaces,
                    old(icon_cache).model(),
                    r.workspaces@[i].id,
                    r.workspaces@[i].windows@[j],
                ),
    {
        let ghost sw = state.windows@;
        let ghost sep = *seperate_workspaces;
        let ghost m0 = old(icon_cache).model();
        let ghost d0 = old(icon_cache).is_dirty();
        let ghost chk = *check_cache_validity;
        let mut items: Vec<(u64, WindowEntry)> = Vec::new();
        let n = state.windows.len();
        let mut t: usize = 0;
        while t < n
            invariant
                n == state.windows@.len(),
                sw == state.windows@,
                sep == *seperate_workspaces,
                m0 == old(icon_cache).model(),
                d0 == old(icon_cache).is_dirty(),
                chk == *check_cache_validity,
                t <= n,
                items@.len() == t,
                icon_cache.wf(),
                forall|args: (&str, u16, &str)| #[trigger] normalize.requires(args),
                forall|j: int|
                    #![trigger items@[j]]
                    0 <= j < t ==> items@[j].0 == ws_key_of(sw[j], sep) && entry_matches(
                        sw[j],
                        items@[j].1,
                    ),
                d0 ==> icon_cache.is_dirty(),
                icon_cache.model() != m0 ==> icon_cache.is_dirty(),
                !chk && all_hit(m0, sw) ==> icon_cache.model() == m0 && icon_cache.is_dirty()
                    == d0,
                !chk && all_hit(m0, sw) ==> forall|j: int|
                    #![trigger items@[j]]
                    0 <= j < t ==> cache_lookup(m0, cache_key_of(sw[j])) == Some(
                        items@[j].1.icon_path@,
                    ),
                !chk && (exists|j: int|
                    0 <= j < t && cache_lookup(m0, cache_key_of(#[trigger] sw[j])) is None)
                    ==> icon_cache.is_dirty(),
            decreases n - t,
        {
            let w = &state.windows[t];
            let key = match &w.app_id {
                Some(a) => a.clone(),
                None => String::from_str("application-default-icon"),
            };
            let display_app = match &w.app_id {
                Some(a) => a.clone(),
                None => String::from_str("unknown"),
            };
            let title = match &w.title {
                Some(s) => s.clone(),
                None => String::new(),
            };
            let ghost cache_in = *icon_cache;
            proof {
                assert(key@ == cache_key_of(sw[t as int]));
            }
            let got = get_valid(icon_cache, key.as_str(), *check_cache_validity);
            let ghost got_path = opt_str_view(got);
            let icon_path = match got {
                Some(p) => p,
                None => {
                    proof {
                        if !chk && all_hit(m0, sw) {
                            assert(cache_in.model() == m0);
                            assert(cache_lookup(m0, cache_key_of(sw[t as int])) is Some);
                            assert(false);
                        }
                    }
                    let resolved = resolve(key.as_str(), icon_theme.as_str(), *icon_size);
                    let stored = if resolved.as_str().is_empty() {
                        resolved.clone()
                    } else {
                        let fname = suffix_after_last(resolved.as_str(), '/');
                        if fname.as_str().is_empty() {
                            resolved.clone()
                        } else {
                            let mut outp = String::from_str(icons_dir);
                            outp.append("/");
                            outp.append(fname.as_str());
                            if normalize(resolved.as_str(), *icon_size, outp.as_str()) {
                                outp
                            } else {
                                resolved.clone()
                            }
                        }
                    };
                    set_path(icon_cache, key.as_str(), stored.as_str());
                    resolved
                },
            };
            let wsid = if *seperate_workspaces {
                match w.workspace_id {
                    Some(x) => x,
                    None => 0,
                }
            } else {
                0
            };
            let entry = WindowEntry {
                id: w.id,
                app_id: display_app,
                title,
                icon_path,
                is_focused: w.is_focused,
            };
            items.push((wsid, entry));
            proof {
                assert(items@[t as int].0 == ws_key_of(sw[t as int], sep));
                assert(entry_matches(sw[t as int], items@[t as int].1));
                if !chk && all_hit(m0, sw) {
                    assert(cache_in.model() == m0);
                    assert(cache_lookup(m0, cache_key_of(sw[t as int])) is Some);
                    assert(got_path is Some);
                    assert(cache_lookup(m0, cache_key_of(sw[t as int])) == got_path);
                    assert(items@[t as int].1.icon_path@ == got_path->Some_0);
                    assert forall|j: int| #![trigger items@[j]] 0 <= j < t + 1 implies
                        cache_lookup(m0, cache_key_of(sw[j])) == Some(
                        items@[j].1.icon_path@,
                    ) by {}
                }
                if !chk && (exists|j: int|
                    0 <= j < t + 1 && cache_lookup(m0, cache_key_of(#[trigger] sw[j])) is None) {
                    let j = choose|j: int|
                        0 <= j < t + 1 && cache_lookup(m0, cache_key_of(#[trigger] sw[j]))
                            is None;
                    if j < t {
                        assert(cache_in.is_dirty());
                    } else {
                        if got_path is Some {
                            assert(cache_lookup(cache_in.model(), key@) == got_path);
                            assert(cache_in.model() != m0);
                            assert(cache_in.is_dirty());
                        }
                    }
                    assert(icon_cache.is_dirty());
                }
            }
            t = t + 1;
        }
        let ghost im = items@;
        let workspaces = group_windows(items, sorting_mode);
        proof {
            let ws = workspaces@;
            assert forall|i: int, j: int|
                #![trigger ws[i].windows@[j]]
                0 <= i < ws.len() && 0 <= j < ws[i].windows@.len() implies entry_from_state(
                sw,
                sep,
                ws[i].id,
                ws[i].windows@[j],
            ) by {
                let e = ws[i].windows@[j];
                assert(ws[i].windows@.contains(e));
                match *sorting_mode {
                    SortingMode::Default => {
                        lemma_contains_same(ws[i].windows@, ws_filter(im, ws[i].id));
                    },
                    SortingMode::AZ => {
                        lemma_contains_same(ws[i].windows@, ws_filter(im, ws[i].id));
                    },
                    SortingMode::Id => {
                        lemma_contains_same(ws[i].windows@, ws_filter(im, ws[i].id));
                    },
                }
                assert(ws_filter(im, ws[i].id).contains(e));
                lemma_ws_filter_contains(im, ws[i].id, e);
                let k = choose|k: int|
                    0 <= k < im.len() && im[k].0 == ws[i].id && im[k].1 == e;
                assert(ws_key_of(sw[k], sep) == ws[i].id && entry_matches(sw[k], e));
            }
            assert forall|k: int|
                #![trigger sw[k]]
                0 <= k < sw.len() implies snapshot_contains(ws, ws_key_of(sw[k], sep), sw[k]) by {
                let item = im[k];
                assert(item.0 == ws_key_of(sw[k], sep));
                assert(has_group(ws, item.0));
                let i = choose|i: int| 0 <= i < ws.len() && (#[trigger] ws[i].id) == item.0;
                lemma_ws_filter_contains(im, item.0, item.1);
                assert(ws_filter(im, item.0).contains(item.1));
                match *sorting_mode {
                    SortingMode::Default => {
                        lemma_contains_same(ws[i].windows@, ws_filter(im, item.0));
                    },
                    SortingMode::AZ => {
                        lemma_contains_same(ws[i].windows@, ws_filter(im, item.0));
                    },
                    SortingMode::Id => {
                        lemma_contains_same(ws[i].windows@, ws_filter(im, item.0));
                    },
                }
                assert(ws[i].windows@.contains(item.1));
                let j = choose|j: int|
                    0 <= j < ws[i].windows@.len() && ws[i].windows@[j] == item.1;
                assert(entry_matches(sw[k], ws[i].windows@[j]));
            }
            assert forall|i: int| 0 <= i < ws.len() implies (#[trigger] ws[i]).windows@.len()
                > 0 by {}
            assert forall|j: int| 0 <= j < im.len() implies (#[trigger] im[j]).0 == ws_key_of(
                sw[j],
                sep,
            ) && im[j].1.id == sw[j].id by {}
            if *sorting_mode == SortingMode::Default {
                assert forall|i: int| 0 <= i < ws.len() implies entry_ids(
                    (#[trigger] ws[i]).windows@,
                ) == state_ids_for(sw, sep, ws[i].id) by {
                    assert(ws[i].windows@ == ws_filter(im, ws[i].id));
                    lemma_ids_match(im, sw, sep, ws[i].id);
                }
            }
            if !chk && !all_hit(m0, sw) {
                assert(exists|j: int|
                    0 <= j < n && cache_lookup(m0, cache_key_of(#[trigger] sw[j])) is None);
            }
            if !chk && all_hit(m0, sw) {
                assert forall|i: int, j: int|
                    #![trigger ws[i].windows@[j]]
                    0 <= i < ws.len() && 0 <= j < ws[i].windows@.len() implies entry_from_cache(
                    sw,
                    sep,
                    m0,
                    ws[i].id,
                    ws[i].windows@[j],
                ) by {
                    let e = ws[i].windows@[j];
                    assert(ws[i].windows@.contains(e));
                    match *sorting_mode {
                        SortingMode::Default => {
                            lemma_contains_same(ws[i].windows@, ws_filter(im, ws[i].id));
                        },
                        SortingMode::AZ => {
                            lemma_contains_same(ws[i].windows@, ws_filter(im, ws[i].id));
                        },
                        SortingMode::Id => {
                            lemma_contains_same(ws[i].windows@, ws_filter(im, ws[i].id));
                        },
                    }
                    assert(ws_filter(im, ws[i].id).contains(e));
                    lemma_ws_filter_contains(im, ws[i].id, e);
                    let k = choose|k: int|
                        0 <= k < im.len() && im[k].0 == ws[i].id && im[k].1 == e;
                    assert(cache_lookup(m0, cache_key_of(sw[k])) == Some(e.icon_path@));
                    assert(ws_key_of(sw[k], sep) == ws[i].id && entry_matches(sw[k], e));
                }
            }
        }
        SerializableState { workspaces }
    }
}

} // verus!
