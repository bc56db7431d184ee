use vstd::prelude::*;
use crate::text::{
    escape, unescape, escape_field, unescape_field, find_char, find_in, subrange_vec, chars_of,
    string_of, lemma_escape_no_delimiters, lemma_unescape_escape, lemma_find_char_at,
    opt_str_view,
};

verus! {

/// One cache record: the icon path last resolved for an application id.
pub struct CacheDate {
    pub icon_path: String,
}

/// The icon path cache: a mapping from application id to resolved icon
/// path, held as an ordered list of entries with pairwise distinct keys.
/// `dirty` records whether anything changed since the map was loaded or
/// last marked saved, so a no-op tick writes nothing to disk.
pub struct CacheMap {
    entries: Vec<(String, CacheDate)>,
    dirty: bool,
}

/// Index of the entry with key `k`, or -1 when no entry has it.
pub open spec fn key_index(es: Seq<(Seq<char>, Seq<char>)>, k: Seq<char>) -> int
    decreases es.len(),
{
    if es.len() == 0 {
        -1
    } else if es[0].0 == k {
        0
    } else if key_index(es.drop_first(), k) == -1 {
        -1
    } else {
        1 + key_index(es.drop_first(), k)
    }
}

/// The stored path for key `k`, if any entry has it.
pub open spec fn cache_lookup(es: Seq<(Seq<char>, Seq<char>)>, k: Seq<char>) -> Option<
    Seq<char>,
> {
    if key_index(es, k) == -1 {
        None
    } else {
        Some(es[key_index(es, k)].1)
    }
}

/// No two entries share a key.
pub open spec fn keys_unique(es: Seq<(Seq<char>, Seq<char>)>) -> bool {
    forall|i: int, j: int| 0 <= i < j < es.len() ==> es[i].0 != es[j].0
}

/// Insert-or-overwrite: the entry with key `k` is replaced in place, or a
/// new entry is appended when the key is absent.
pub open spec fn store_entry(
    es: Seq<(Seq<char>, Seq<char>)>,
    k: Seq<char>,
    v: Seq<char>,
) -> Seq<(Seq<char>, Seq<char>)> {
    let i = key_index(es, k);
    if i == -1 {
        es.push((k, v))
    } else {
        es.update(i, (k, v))
    }
}

proof fn lemma_key_index_bounds(es: Seq<(Seq<char>, Seq<char>)>, k: Seq<char>)
    ensures
        key_index(es, k) == -1 || (0 <= key_index(es, k) < es.len() && es[key_index(es, k)].0
            == k),
        key_index(es, k) == -1 ==> forall|i: int| 0 <= i < es.len() ==> es[i].0 != k,
        0 <= key_index(es, k) ==> forall|i: int| 0 <= i < key_index(es, k) ==> es[i].0 != k,
    decreases es.len(),
{
    if es.len() != 0 && es[0].0 != k {
        lemma_key_index_bounds(es.drop_first(), k);
        assert forall|i: int| 1 <= i < es.len() implies es[i] == es.drop_first()[i - 1] by {}
    }
}

proof fn lemma_key_index_at(es: Seq<(Seq<char>, Seq<char>)>, k: Seq<char>, at: int)
    requires
        0 <= at < es.len(),
        es[at].0 == k,
        forall|i: int| 0 <= i < at ==> es[i].0 != k,
    ensures
        key_index(es, k) == at,
    decreases es.len(),
{
    if at > 0 {
        lemma_key_index_at(es.drop_first(), k, at - 1);
    }
}

/// Storing keeps keys pairwise distinct.
proof fn lemma_store_wf(es: Seq<(Seq<char>, Seq<char>)>, k: Seq<char>, v: Seq<char>)
    requires
        keys_unique(es),
    ensures
        keys_unique(store_entry(es, k, v)),
        cache_lookup(store_entry(es, k, v), k) == Some(v),
{
    lemma_key_index_bounds(es, k);
    let i = key_index(es, k);
    let es2 = store_entry(es, k, v);
    if i == -1 {
        assert forall|a: int, b: int| 0 <= a < b < es2.len() implies es2[a].0 != es2[b].0 by {
            if b < es.len() {
            } else {
                assert(es2[b].0 == k);
                assert(es2[a].0 == es[a].0);
            }
        }
        lemma_key_index_at(es2, k, es.len() as int);
    } else {
        assert forall|a: int, b: int| 0 <= a < b < es2.len() implies es2[a].0 != es2[b].0 by {
            assert(es[a].0 != es[b].0);
        }
        lemma_key_index_at(es2, k, i);
    }
}

impl CacheMap {
    /// The entries as pairs of character sequences, in storage order.
    pub closed spec fn model(self) -> Seq<(Seq<char>, Seq<char>)> {
        self.entries@.map_values(|e: (String, CacheDate)| (e.0@, e.1.icon_path@))
    }

    /// Whether the map changed since it was loaded or last marked saved.
    pub closed spec fn is_dirty(self) -> bool {
        self.dirty
    }

    /// The map's invariant: keys are pairwise distinct.
    pub open spec fn wf(self) -> bool {
        keys_unique(self.model())
    }

    /// An empty cache, not dirty.
    pub fn new() -> (r: CacheMap)
        ensures
            r.model() == Seq::<(Seq<char>, Seq<char>)>::empty(),
            !r.is_dirty(),
            r.wf(),
    {
        let r = CacheMap { entries: Vec::new(), dirty: false };
        proof {
            assert(r.model() =~= Seq::<(Seq<char>, Seq<char>)>::empty());
        }
        r
    }

    /// How many entries the map holds.
    pub fn len(&self) -> (n: usize)
        ensures
            n == self.model().len(),
    {
        self.entries.len()
    }

    /// Marks the map saved: `save_history` callers use this after a
    /// successful write, so later no-op ticks skip the disk.
    pub fn mark_saved(&mut self)
        ensures
            final(self).model() == old(self).model(),
            !final(self).is_dirty(),
    {
        self.dirty = false;
    }

    /// Whether the map changed since it was loaded or last marked saved.
    pub fn changed(&self) -> (r: bool)
        ensures
            r == self.is_dirty(),
    {
        self.dirty
    }
}

/// Index of the entry with key `appid`, if any.
fn find_entry(entries: &Vec<(String, CacheDate)>, appid: &str) -> (r: Option<usize>)
    ensures
        ({
            let es = entries@.map_values(|e: (String, CacheDate)| (e.0@, e.1.icon_path@));
            match r {
                Some(i) => i < es.len() && key_index(es, appid@) == i as int,
                None => key_index(es, appid@) == -1,
            }
        }),
{
    let ghost es = entries@.map_values(|e: (String, CacheDate)| (e.0@, e.1.icon_path@));
    proof {
        lemma_key_index_bounds(es, appid@);
    }
    let key = String::from_str(appid);
    let n = entries.len();
    let mut k: usize = 0;
    while k < n
        invariant
            n == entries@.len(),
            es == entries@.map_values(|e: (String, CacheDate)| (e.0@, e.1.icon_path@)),
            key@ == appid@,
            k <= n,
            forall|j: int| 0 <= j < k ==> es[j].0 != appid@,
        decreases n - k,
    {
        if entries[k].0 == key {
            proof {
                lemma_key_index_at(es, appid@, k as int);
            }
            return Some(k);
        }
        k = k + 1;
    }
    None
}

/// Inserts or overwrites the entry for `appid` and marks the map dirty.
pub fn set_path(history: &mut CacheMap, appid: &str, icon_path: &str)
    ensures
        final(history).model() == store_entry(old(history).model(), appid@, icon_path@),
        final(history).is_dirty(),
        old(history).wf() ==> final(history).wf(),
{
    proof {
        if old(history).wf() {
            lemma_store_wf(old(history).model(), appid@, icon_path@);
        }
    }
    let idx = find_entry(&history.entries, appid);
    let key = String::from_str(appid);
    let date = CacheDate { icon_path: String::from_str(icon_path) };
    match idx {
        Some(i) => {
            let _ = history.entries.remove(i);
            history.entries.insert(i, (key, date));
            proof {
                assert(history.model() =~= store_entry(
                    old(history).model(),
                    appid@,
                    icon_path@,
                ));
            }
        },
        None => {
            history.entries.push((key, date));
            proof {
                assert(history.model() =~= store_entry(
                    old(history).model(),
                    appid@,
                    icon_path@,
                ));
            }
        },
    }
    history.dirty = true;
}

/// Relies on std::path::Path::exists: whether a path currently names an
/// existing file; the answer depends on the filesystem, so nothing more
/// is assumed of it.
#[verifier::external_body]
fn file_exists(path: &str) -> bool {
    std::path::Path::new(path).exists()
}

/// What a lookup answers, given the stored entry and the filesystem's
/// existence answer: the stored path stands, unless the validity check
/// is on and the file no longer exists — then the stale entry is a miss.
pub open spec fn valid_hit(
    stored: Option<Seq<char>>,
    require_path_exists: bool,
    exists_on_disk: bool,
) -> Option<Seq<char>> {
    match stored {
        Some(p) => if !require_path_exists || exists_on_disk {
            Some(p)
        } else {
            None
        },
        None => None,
    }
}

/// The validity decision on explicit answers: exactly `valid_hit` of the
/// stored path and the existence answer. `get_valid` calls this with
/// what the filesystem said.
pub fn decide_valid(stored: Option<String>, require_path_exists: bool, exists_on_disk: bool) -> (r:
    Option<String>)
    ensures
        opt_str_view(r) == valid_hit(opt_str_view(stored), require_path_exists, exists_on_disk),
{
    match stored {
        Some(p) => if !require_path_exists || exists_on_disk {
            Some(p)
        } else {
            None
        },
        None => None,
    }
}

/// The stored path for `appid`, treating a stale entry as a miss when
/// `require_path_exists` is set: a path that no longer exists on disk is
/// not returned, which forces the caller to re-resolve.
pub fn get_valid(history: &CacheMap, appid: &str, require_path_exists: bool) -> (r: Option<
    String,
>)
    ensures
        r matches Some(p) ==> cache_lookup(history.model(), appid@) == Some(p@),
        !require_path_exists ==> (r is Some <==> cache_lookup(history.model(), appid@) is Some),
        cache_lookup(history.model(), appid@) is None ==> r is None,
{
    let idx = find_entry(&history.entries, appid);
    proof {
        lemma_key_index_bounds(history.model(), appid@);
    }
    let stored: Option<String> = match idx {
        Some(i) => Some(history.entries[i].1.icon_path.clone()),
        None => None,
    };
    let exists_on_disk = match &stored {
        Some(p) => if require_path_exists {
            file_exists(p.as_str())
        } else {
            false
        },
        None => false,
    };
    decide_valid(stored, require_path_exists, exists_on_disk)
}

/// One encoded cache line: escaped key, tab, escaped path, newline.
pub open spec fn encode_entry(k: Seq<char>, v: Seq<char>) -> Seq<char> {
    escape(k) + seq!['\t'] + escape(v) + seq!['\n']
}

/// The whole cache document: the entries' lines in storage order.
pub open spec fn encode_entries(es: Seq<(Seq<char>, Seq<char>)>) -> Seq<char>
    decreases es.len(),
{
    if es.len() == 0 {
        Seq::<char>::empty()
    } else {
        encode_entry(es[0].0, es[0].1) + encode_entries(es.drop_first())
    }
}

/// Decodes a cache document: one line per entry, fields unescaped; `None`
/// when any line lacks its tab or holds a bad escape.
pub open spec fn parse_entries(s: Seq<char>) -> Option<Seq<(Seq<char>, Seq<char>)>>
    decreases s.len(),
{
    if s.len() == 0 {
        Some(Seq::<(Seq<char>, Seq<char>)>::empty())
    } else {
        let nl = find_char(s, '\n');
        if !(0 <= nl < s.len()) {
            None
        } else {
            let line = s.take(nl);
            let rest = s.skip(nl + 1);
            let tb = find_char(line, '\t');
            if tb == -1 {
                None
            } else {
                match (unescape(line.take(tb)), unescape(line.skip(tb + 1))) {
                    (Some(k), Some(v)) => match parse_entries(rest) {
                        Some(more) => Some(seq![(k, v)] + more),
                        None => None,
                    },
                    _ => None,
                }
            }
        }
    }
}

/// Parsing a document that `encode_entries` produced gives the entries
/// back exactly, in order.
pub proof fn lemma_parse_encode(es: Seq<(Seq<char>, Seq<char>)>)
    ensures
        parse_entries(encode_entries(es)) == Some(es),
    decreases es.len(),
{
    if es.len() == 0 {
        assert(parse_entries(encode_entries(es)) == Some(Seq::<(Seq<char>, Seq<char>)>::empty()));
        assert(es =~= Seq::<(Seq<char>, Seq<char>)>::empty());
    } else {
        let k = es[0].0;
        let v = es[0].1;
        let ek = escape(k);
        let ev = escape(v);
        let ee = encode_entry(k, v);
        let tail = encode_entries(es.drop_first());
        let s = encode_entries(es);
        assert(s == ee + tail);
        lemma_escape_no_delimiters(k);
        lemma_escape_no_delimiters(v);
        let nlpos = ek.len() + 1 + ev.len();
        assert(ee.len() == nlpos + 1);
        assert forall|i: int| 0 <= i < nlpos implies s[i] != '\n' by {
            assert(s[i] == ee[i]);
            if i < ek.len() {
                assert(ee[i] == ek[i]);
            } else if i == ek.len() {
                assert(ee[i] == '\t');
            } else {
                assert(ee[i] == ev[i - ek.len() - 1]);
            }
        }
        assert(s[nlpos as int] == ee[nlpos as int]);
        assert(ee[nlpos as int] == '\n');
        lemma_find_char_at(s, '\n', nlpos as int);
        let line = s.take(nlpos as int);
        let rest = s.skip(nlpos as int + 1);
        assert(line =~= ek + seq!['\t'] + ev);
        assert(rest =~= tail);
        assert forall|i: int| 0 <= i < ek.len() implies line[i] != '\t' by {
            assert(line[i] == ek[i]);
        }
        assert(line[ek.len() as int] == '\t');
        lemma_find_char_at(line, '\t', ek.len() as int);
        assert(line.take(ek.len() as int) =~= ek);
        assert(line.skip(ek.len() as int + 1) =~= ev);
        lemma_unescape_escape(k);
        lemma_unescape_escape(v);
        lemma_parse_encode(es.drop_first());
        assert(parse_entries(s) == Some(seq![(k, v)] + es.drop_first()));
        assert(seq![(k, v)] + es.drop_first() =~= es);
    }
}

/// What loading builds from parsed entries: insert-or-overwrite, first to
/// last, starting from the empty map.
pub open spec fn built(es: Seq<(Seq<char>, Seq<char>)>) -> Seq<(Seq<char>, Seq<char>)>
    decreases es.len(),
{
    if es.len() == 0 {
        Seq::<(Seq<char>, Seq<char>)>::empty()
    } else {
        store_entry(built(es.drop_last()), es.last().0, es.last().1)
    }
}

/// Building from entries with pairwise distinct keys reproduces them
/// exactly: every insert appends.
pub proof fn lemma_built_unique(es: Seq<(Seq<char>, Seq<char>)>)
    requires
        keys_unique(es),
    ensures
        built(es) == es,
    decreases es.len(),
{
    if es.len() != 0 {
        let head = es.drop_last();
        assert(keys_unique(head));
        lemma_built_unique(head);
        lemma_key_index_bounds(head, es.last().0);
        assert(key_index(head, es.last().0) == -1) by {
            if key_index(head, es.last().0) != -1 {
                let i = key_index(head, es.last().0);
                assert(es[i].0 == es.last().0);
            }
        }
        assert(built(es) =~= es);
    }
}

/// Serializes the cache as its flat textual document. The caller writes
/// the text to the well-known location and then marks the map saved.
pub fn save_history(history: &CacheMap) -> (r: String)
    ensures
        r@ == encode_entries(history.model()),
{
    let ghost es = history.model();
    let mut out: Vec<char> = Vec::new();
    let n = history.entries.len();
    let mut k: usize = 0;
    proof {
        assert(es.take(0) =~= Seq::<(Seq<char>, Seq<char>)>::empty());
        assert(out@ =~= encode_entries(es.take(0)));
    }
    while k < n
        invariant
            n == history.entries@.len(),
            es == history.model(),
            es.len() == n,
            k <= n,
            out@ == encode_entries(es.take(k as int)),
        decreases n - k,
    {
        let kc = chars_of(history.entries[k].0.as_str());
        let vc = chars_of(history.entries[k].1.icon_path.as_str());
        let mut ekc = escape_field(&kc);
        let mut evc = escape_field(&vc);
        proof {
            assert(es[k as int] == (history.entries@[k as int].0@,
            history.entries@[k as int].1.icon_path@));
        }
        out.append(&mut ekc);
        out.push('\t');
        out.append(&mut evc);
        out.push('\n');
        proof {
            lemma_encode_entries_push(es.take(k as int), es[k as int]);
            assert(es.take(k + 1) =~= es.take(k as int).push(es[k as int]));
            assert(out@ =~= encode_entries(es.take(k as int)) + encode_entry(
                es[k as int].0,
                es[k as int].1,
            ));
        }
        k = k + 1;
    }
    proof {
        assert(es.take(n as int) =~= es);
    }
    string_of(&out)
}

proof fn lemma_encode_entries_push(
    es: Seq<(Seq<char>, Seq<char>)>,
    e: (Seq<char>, Seq<char>),
)
    ensures
        encode_entries(es.push(e)) == encode_entries(es) + encode_entry(e.0, e.1),
    decreases es.len(),
{
    if es.len() == 0 {
        assert(es.push(e)[0] == e);
        assert(es.push(e).drop_first() =~= Seq::<(Seq<char>, Seq<char>)>::empty());
        assert(encode_entries(Seq::<(Seq<char>, Seq<char>)>::empty()) == Seq::<char>::empty());
        assert(encode_entries(es.push(e)) == encode_entry(e.0, e.1) + Seq::<char>::empty());
        assert(encode_entry(e.0, e.1) + Seq::<char>::empty() =~= encode_entry(e.0, e.1));
        assert(encode_entries(es) + encode_entry(e.0, e.1) =~= encode_entry(e.0, e.1));
    } else {
        assert(es.push(e)[0] == es[0]);
        assert(es.push(e).drop_first() =~= es.drop_first().push(e));
        lemma_encode_entries_push(es.drop_first(), e);
        assert(encode_entries(es.push(e)) == encode_entry(es[0].0, es[0].1) + (encode_entries(
            es.drop_first(),
        ) + encode_entry(e.0, e.1)));
        assert(encode_entry(es[0].0, es[0].1) + (encode_entries(es.drop_first()) + encode_entry(
            e.0,
            e.1,
        )) =~= (encode_entry(es[0].0, es[0].1) + encode_entries(es.drop_first())) + encode_entry(
            e.0,
            e.1,
        ));
    }
}

/// Decodes one cache document into its entries; `None` when the text is
/// not a well-formed document.
fn parse_document(v: &Vec<char>) -> (r: Option<Vec<(String, String)>>)
    ensures
        match r {
            Some(out) => parse_entries(v@) == Some(
                out@.map_values(|e: (String, String)| (e.0@, e.1@)),
            ),
            None => parse_entries(v@) is None,
        },
    decreases v@.len(),
{
    if v.len() == 0 {
        let out: Vec<(String, String)> = Vec::new();
        proof {
            assert(out@.map_values(|e: (String, String)| (e.0@, e.1@)) =~= Seq::<(
                Seq<char>,
                Seq<char>,
            )>::empty());
        }
        return Some(out);
    }
    let nl = match find_in(v, '\n') {
        Some(i) => i,
        None => {
            return None;
        },
    };
    let line = subrange_vec(v, 0, nl);
    let rest = subrange_vec(v, nl + 1, v.len());
    proof {
        assert(line@ =~= v@.take(nl as int));
        assert(rest@ =~= v@.skip(nl as int + 1));
    }
    let tb = match find_in(&line, '\t') {
        Some(i) => i,
        None => {
            return None;
        },
    };
    let kraw = subrange_vec(&line, 0, tb);
    let vraw = subrange_vec(&line, tb + 1, line.len());
    proof {
        assert(kraw@ =~= line@.take(tb as int));
        assert(vraw@ =~= line@.skip(tb as int + 1));
    }
    let key = match unescape_field(&kraw) {
        Some(c) => c,
        None => {
            return None;
        },
    };
    let val = match unescape_field(&vraw) {
        Some(c) => c,
        None => {
            return None;
        },
    };
    let more = match parse_document(&rest) {
        Some(m) => m,
        None => {
            return None;
        },
    };
    let mut out: Vec<(String, String)> = Vec::new();
    out.push((string_of(&key), string_of(&val)));
    let ghost first = out@;
    let n = more.len();
    let mut k: usize = 0;
    while k < n
        invariant
            n == more@.len(),
            k <= n,
            out@ == first + more@.take(k as int),
            first.len() == 1,
        decreases n - k,
    {
        let e = &more[k];
        out.push((e.0.clone(), e.1.clone()));
        proof {
            assert(out@ =~= first + more@.take(k + 1));
        }
        k = k + 1;
    }
    proof {
        assert(more@.take(n as int) =~= more@);
        let m = out@.map_values(|e: (String, String)| (e.0@, e.1@));
        let mm = more@.map_values(|e: (String, String)| (e.0@, e.1@));
        assert(m =~= seq![(key@, val@)] + mm);
    }
    Some(out)
}

/// Rebuilds the cache from the text read at its well-known location; a
/// missing file (`None`) or an unparsable document gives an empty map,
/// never an error. The result starts out not dirty.
pub fn load_history(content: Option<&str>) -> (r: CacheMap)
    ensures
        r.wf(),
        !r.is_dirty(),
        match content {
            None => r.model() == Seq::<(Seq<char>, Seq<char>)>::empty(),
            Some(s) => match parse_entries(s@) {
                Some(es) => r.model() == built(es),
                None => r.model() == Seq::<(Seq<char>, Seq<char>)>::empty(),
            },
        },
{
    let text = match content {
        Some(s) => s,
        None => {
            return CacheMap::new();
        },
    };
    let chars = chars_of(text);
    let parsed = match parse_document(&chars) {
        Some(p) => p,
        None => {
            return CacheMap::new();
        },
    };
    let ghost es = parsed@.map_values(|e: (String, String)| (e.0@, e.1@));
    let mut m = CacheMap::new();
    let n = parsed.len();
    let mut k: usize = 0;
    proof {
        assert(es.take(0) =~= Seq::<(Seq<char>, Seq<char>)>::empty());
        assert(m.model() =~= built(es.take(0)));
    }
    while k < n
        invariant
            n == parsed@.len(),
            es == parsed@.map_values(|e: (String, String)| (e.0@, e.1@)),
            k <= n,
            m.model() == built(es.take(k as int)),
            m.wf(),
        decreases n - k,
    {
        set_path(&mut m, parsed[k].0.as_str(), parsed[k].1.as_str());
        proof {
            assert(es.take(k + 1).drop_last() =~= es.take(k as int));
            assert(es.take(k + 1).last() == es[k as int]);
        }
        k = k + 1;
    }
    m.mark_saved();
    proof {
        assert(es.take(n as int) =~= es);
    }
    m
}

/// Round trip: the document that `save_history` writes for a well-formed
/// map parses back to exactly the map's entries, and rebuilding from them
/// reproduces the same mapping, key set and paths unchanged.
pub proof fn lemma_save_load_round_trip(m: CacheMap)
    requires
        m.wf(),
    ensures
        parse_entries(encode_entries(m.model())) == Some(m.model()),
        built(m.model()) == m.model(),
{
    lemma_parse_encode(m.model());
    lemma_built_unique(m.model());
}

} // verus!
