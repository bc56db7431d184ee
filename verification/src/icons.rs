use vstd::prelude::*;
use crate::text::{after_last, before_first, prefix_before, suffix_after_last};

verus! {

/// What `str::to_lowercase` returns for a given character sequence: a pure
/// function of the characters alone, left unspecified beyond that.
pub uninterp spec fn lower_of(s: Seq<char>) -> Seq<char>;

/// Relies on str::to_lowercase: the result depends on the characters
/// alone, and an empty string stays empty.
#[verifier::external_body]
pub(crate) fn lowercase(s: &str) -> (r: String)
    ensures
        r@ == lower_of(s@),
        s@.len() == 0 ==> r@.len() == 0,
{
    s.to_lowercase()
}

/// Relies on freedesktop_icons::lookup: finds an icon file by name, size
/// and theme in the system icon-theme catalogs. The answer depends on
/// what is installed, so nothing is assumed of it.
#[verifier::external_body]
pub(crate) fn themed_lookup(name: &str, icon_theme: &str, icon_size: u16) -> Option<String> {
    freedesktop_icons::lookup(name)
        .with_cache()
        .with_size(icon_size)
        .with_theme(icon_theme)
        .find()
        .map(|p| p.to_string_lossy().to_string())
}

/// Relies on icon::Icons::new and Icons::find_standalone_icon: scans the
/// standard directories and looks a standalone (theme-less) icon up by
/// name. The answer depends on what is installed.
#[verifier::external_body]
pub(crate) fn standalone_lookup(name: &str) -> Option<String> {
    let icons = icon::Icons::new();
    icons.find_standalone_icon(name).map(|i| i.path().to_string_lossy().to_string())
}

/// Relies on freedesktop_desktop_entry's Iter, default_paths,
/// get_languages_from_env and DesktopEntry::from_path: scans the desktop
/// entries on disk and hands back each entry's localized display name and
/// declared icon name (empty when the entry declares none). default_paths
/// panics when no home directory can be determined; dirs::data_dir is
/// None in exactly that situation (same XDG-then-home discovery), so the
/// guard makes a home-less environment a plain empty scan instead.
#[verifier::external_body]
pub(crate) fn desktop_entries() -> Vec<(Option<String>, String)> {
    if dirs::data_dir().is_none() {
        return Vec::new();
    }
    let locales = freedesktop_desktop_entry::get_languages_from_env();
    let paths = freedesktop_desktop_entry::Iter::new(freedesktop_desktop_entry::default_paths());
    let mut out: Vec<(Option<String>, String)> = Vec::new();
    for path in paths {
        if let Ok(entry) = freedesktop_desktop_entry::DesktopEntry::from_path(path, Some(&locales)) {
            let name = entry.name(&locales).map(|n| n.to_string());
            let icon = entry.icon().unwrap_or_default().to_string();
            out.push((name, icon));
        }
    }
    out
}

/// The first non-empty attempt result, or empty when every attempt in the
/// ordered fallback chain came back empty.
pub open spec fn chain_result(attempts: Seq<Seq<char>>) -> Seq<char>
    decreases attempts.len(),
{
    if attempts.len() == 0 {
        Seq::<char>::empty()
    } else if attempts[0].len() > 0 {
        attempts[0]
    } else {
        chain_result(attempts.drop_first())
    }
}

/// Walks attempt results in order and keeps the first non-empty one: the
/// decision rule of the resolution chain, on explicit outcomes.
pub fn resolve_attempts(attempts: &Vec<String>) -> (r: String)
    ensures
        r@ == chain_result(attempts@.map_values(|s: String| s@)),
{
    let ghost model = attempts@.map_values(|s: String| s@);
    let n = attempts.len();
    let mut k: usize = 0;
    proof {
        assert(model.skip(0) =~= model);
    }
    while k < n
        invariant
            n == attempts@.len(),
            model == attempts@.map_values(|s: String| s@),
            k <= n,
            chain_result(model) == chain_result(model.skip(k as int)),
            forall|j: int| 0 <= j < k ==> model[j].len() == 0,
        decreases n - k,
    {
        let a = &attempts[k];
        if !a.as_str().is_empty() {
            proof {
                assert(model.skip(k as int)[0] == model[k as int]);
            }
            return a.clone();
        }
        proof {
            assert(model.skip(k as int)[0] == model[k as int]);
            assert(model.skip(k as int).drop_first() =~= model.skip(k + 1));
        }
        k = k + 1;
    }
    proof {
        assert(model.skip(n as int) =~= Seq::<Seq<char>>::empty());
    }
    String::new()
}

/// The icon names declared by the desktop entries whose localized display
/// name equals `app_name`, in scan order.
pub open spec fn matching_icon_names(
    entries: Seq<(Option<Seq<char>>, Seq<char>)>,
    app_name: Seq<char>,
) -> Seq<Seq<char>> {
    entries.filter(|e: (Option<Seq<char>>, Seq<char>)| e.0 == Some(app_name)).map_values(
        |e: (Option<Seq<char>>, Seq<char>)| e.1,
    )
}

proof fn lemma_matching_push(
    es: Seq<(Option<Seq<char>>, Seq<char>)>,
    e: (Option<Seq<char>>, Seq<char>),
    app_name: Seq<char>,
)
    ensures
        matching_icon_names(es.push(e), app_name) == if e.0 == Some(app_name) {
            matching_icon_names(es, app_name).push(e.1)
        } else {
            matching_icon_names(es, app_name)
        },
{
    reveal(Seq::filter);
    assert(es.push(e).drop_last() =~= es);
    assert(es.push(e).last() == e);
    if e.0 == Some(app_name) {
        assert(matching_icon_names(es.push(e), app_name) =~= matching_icon_names(
            es,
            app_name,
        ).push(e.1));
    } else {
        assert(matching_icon_names(es.push(e), app_name) =~= matching_icon_names(es, app_name));
    }
}

/// Selects, from scanned desktop entries, the icon names of those whose
/// display name equals `app_name`, in order.
pub fn desktop_icon_names(entries: &Vec<(Option<String>, String)>, app_name: &str) -> (r: Vec<
    String,
>)
    ensures
        r@.map_values(|s: String| s@) == matching_icon_names(
            entries@.map_values(
                |e: (Option<String>, String)| (
                    match e.0 {
                        Some(s) => Some(s@),
                        None => None,
                    },
                    e.1@,
                ),
            ),
            app_name@,
        ),
{
    let ghost model = entries@.map_values(
        |e: (Option<String>, String)| (
            match e.0 {
                Some(s) => Some(s@),
                None => None,
            },
            e.1@,
        ),
    );
    let key = String::from_str(app_name);
    let mut r: Vec<String> = Vec::new();
    let n = entries.len();
    let mut k: usize = 0;
    proof {
        reveal(Seq::filter);
        assert(model.take(0) =~= Seq::<(Option<Seq<char>>, Seq<char>)>::empty());
        assert(r@.map_values(|s: String| s@) =~= matching_icon_names(model.take(0), app_name@));
    }
    while k < n
        invariant
            n == entries@.len(),
            key@ == app_name@,
            model == entries@.map_values(
                |e: (Option<String>, String)| (
                    match e.0 {
                        Some(s) => Some(s@),
                        None => None,
                    },
                    e.1@,
                ),
            ),
            k <= n,
            r@.map_values(|s: String| s@) == matching_icon_names(
                model.take(k as int),
                app_name@,
            ),
        decreases n - k,
    {
        let matches_name = match &entries[k].0 {
            Some(nm) => nm.eq(&key),
            None => false,
        };
        if matches_name {
            r.push(entries[k].1.clone());
        }
        proof {
            assert(model.take(k + 1) =~= model.take(k as int).push(model[k as int]));
            lemma_matching_push(model.take(k as int), model[k as int], app_name@);
            assert(matches_name == (model[k as int].0 == Some(app_name@)));
            if matches_name {
                assert(model[k as int].1 == entries@[k as int].1@);
                assert(r@.map_values(|s: String| s@) =~= matching_icon_names(
                    model.take(k as int),
                    app_name@,
                ).push(model[k as int].1));
            }
            assert(r@.map_values(|s: String| s@) =~= matching_icon_names(
                model.take(k + 1),
                app_name@,
            ));
        }
        k = k + 1;
    }
    proof {
        assert(model.take(n as int) =~= model);
    }
    r
}

/// Scans the desktop-entry catalog for an entry whose localized display
/// name equals `app_name`; a match's declared icon name is resolved
/// through the themed catalog, falling back to the standalone catalog.
/// Which entries exist, and what the catalogs answer, depends on the
/// machine, so the result carries no further promise.
pub fn get_icon_desktop_fallback(app_name: &str, icon_theme: &str, icon_size: u16) -> Option<
    String,
> {
    let entries = desktop_entries();
    let names = desktop_icon_names(&entries, app_name);
    let n = names.len();
    let mut k: usize = 0;
    while k < n
        invariant
            n == names@.len(),
            k <= n,
        decreases n - k,
    {
        let icon_name = &names[k];
        match themed_lookup(icon_name.as_str(), icon_theme, icon_size) {
            Some(p) => {
                return Some(p);
            },
            None => {},
        }
        match standalone_lookup(icon_name.as_str()) {
            Some(p) => {
                return Some(p);
            },
            None => {},
        }
        k = k + 1;
    }
    None
}

/// The four keys the themed catalog is asked about, in chain order: the
/// id verbatim, lower-cased, the lower-cased id's part after the last
/// `.`, and its part before the first `*`.
pub fn resolution_keys(app_id: &str) -> (r: Vec<String>)
    ensures
        r@.len() == 4,
        r@[0]@ == app_id@,
        r@[1]@ == lower_of(app_id@),
        r@[2]@ == after_last(lower_of(app_id@), '.'),
        r@[3]@ == before_first(lower_of(app_id@), '*'),
{
    let lowered = lowercase(app_id);
    let mut r: Vec<String> = Vec::new();
    r.push(String::from_str(app_id));
    r.push(lowered.clone());
    r.push(suffix_after_last(lowered.as_str(), '.'));
    r.push(prefix_before(lowered.as_str(), '*'));
    r
}

/// The fixed generic icon name tried when every other attempt failed.
pub fn generic_icon_name() -> (r: String)
    ensures
        r@ == "application-x-executable"@,
{
    String::from_str("application-x-executable")
}

/// Resolves an icon path for an application id through the ordered
/// fallback chain: the id verbatim, lower-cased, its part after the last
/// `.`, its part before the first `*` (all against the themed catalog),
/// then the standalone catalog by the original id, then the desktop-entry
/// scan, then the fixed generic executable icon. The first attempt with a
/// non-empty path wins; when all fail the result is empty. What each
/// catalog answers depends on the machine, so the chain's outcome carries
/// no promise beyond the order in which the attempts are made.
pub fn resolve(app_id: &str, icon_theme: &str, icon_size: u16) -> String {
    let keys = resolution_keys(app_id);
    let mut path = String::new();
    let mut k: usize = 0;
    // Lazy form of the first-non-empty rule that resolve_attempts states
    // and proves over explicit outcomes: later catalogs are not queried
    // once an attempt has answered.
    while k < keys.len() && path.as_str().is_empty()
        invariant
            k <= keys@.len(),
        decreases keys@.len() - k,
    {
        path = match themed_lookup(keys[k].as_str(), icon_theme, icon_size) {
            Some(p) => p,
            None => String::new(),
        };
        k = k + 1;
    }
    if path.as_str().is_empty() {
        path = match standalone_lookup(app_id) {
            Some(p) => p,
            None => String::new(),
        };
    }
    if path.as_str().is_empty() {
        path = match get_icon_desktop_fallback(app_id, icon_theme, icon_size) {
            Some(p) => p,
            None => String::new(),
        };
    }
    if path.as_str().is_empty() {
        let generic = generic_icon_name();
        path = match themed_lookup(generic.as_str(), icon_theme, icon_size) {
            Some(p) => p,
            None => String::new(),
        };
    }
    path
}

} // verus!
