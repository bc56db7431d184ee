use vstd::prelude::*;
use crate::text::{
    chars_of, string_of, subrange_vec, unescape, unescape_field, escape, escape_field,
    dec_digits, decimal_string, find_char, find_in, lemma_find_char_bounds, opt_str_view,
    trim_back, trim_back_vec, trim_front, trim_front_vec, trimmed,
};

verus! {

/// Sorting applied to the windows inside one workspace group: input
/// order kept, ascending by application id, or ascending by window id.
#[derive(Clone, Copy, Debug, PartialEq, Eq, Structural)]
pub enum SortingMode {
    Default,
    AZ,
    Id,
}

/// The options the process reads at startup.
pub struct GeneralConfig {
    pub icon_theme: String,
    pub icon_size: u16,
    pub seperate_workspaces: bool,
    pub sorting_mode: SortingMode,
    pub check_cache_validity: bool,
}

/// The whole configuration record.
pub struct Config {
    pub general: GeneralConfig,
}

/// Whether a configuration holds exactly the built-in defaults.
pub open spec fn is_default_config(c: Config) -> bool {
    &&& c.general.icon_theme@ == "Papirus-Dark"@
    &&& c.general.icon_size == 16u16
    &&& c.general.seperate_workspaces == true
    &&& c.general.sorting_mode == SortingMode::Default
    &&& c.general.check_cache_validity == true
}

/// The built-in default configuration.
pub fn default_config() -> (c: Config)
    ensures
        is_default_config(c),
{
    Config {
        general: GeneralConfig {
            icon_theme: String::from_str("Papirus-Dark"),
            icon_size: 16,
            seperate_workspaces: true,
            sorting_mode: SortingMode::Default,
            check_cache_validity: true,
        },
    }
}


/// The value of a run of decimal digits, or `None` when a character is
/// not a digit.
pub open spec fn dec_value(s: Seq<char>) -> Option<int>
    decreases s.len(),
{
    if s.len() == 0 {
        Some(0)
    } else {
        match dec_value(s.drop_last()) {
            Some(x) => {
                let c = s.last() as u32;
                if 48 <= c <= 57 {
                    Some(x * 10 + (c - 48))
                } else {
                    None
                }
            },
            None => None,
        }
    }
}

/// A size value: one to five digits, at most 65535.
pub open spec fn parse_u16_value(s: Seq<char>) -> Option<u16> {
    if 1 <= s.len() <= 5 {
        match dec_value(s) {
            Some(x) => if x <= 65535 {
                Some(x as u16)
            } else {
                None
            },
            None => None,
        }
    } else {
        None
    }
}

/// A boolean value: the word `true` or the word `false`.
pub open spec fn parse_bool_value(s: Seq<char>) -> Option<bool> {
    if s == "true"@ {
        Some(true)
    } else if s == "false"@ {
        Some(false)
    } else {
        None
    }
}

/// A quoted string value: double quotes around an escaped field.
pub open spec fn parse_quoted_value(s: Seq<char>) -> Option<Seq<char>> {
    if s.len() >= 2 && s[0] == '"' && s.last() == '"' {
        unescape(s.subrange(1, s.len() - 1))
    } else {
        None
    }
}

/// A sorting mode value, quoted: `Default`, `AZ` or `Id`.
pub open spec fn parse_mode_value(s: Seq<char>) -> Option<SortingMode> {
    match parse_quoted_value(s) {
        Some(w) => if w == "Default"@ {
            Some(SortingMode::Default)
        } else if w == "AZ"@ {
            Some(SortingMode::AZ)
        } else if w == "Id"@ {
            Some(SortingMode::Id)
        } else {
            None
        },
        None => None,
    }
}

/// The options seen so far while reading a configuration document.
pub struct ConfigAcc {
    pub icon_theme: Option<Seq<char>>,
    pub icon_size: Option<u16>,
    pub seperate_workspaces: Option<bool>,
    pub sorting_mode: Option<SortingMode>,
    pub check_cache_validity: Option<bool>,
}

/// Nothing seen yet.
pub open spec fn empty_acc() -> ConfigAcc {
    ConfigAcc {
        icon_theme: None,
        icon_size: None,
        seperate_workspaces: None,
        sorting_mode: None,
        check_cache_validity: None,
    }
}

/// Reads one line, after stripping a trailing carriage return and the
/// blanks at both ends. Blank lines, comment lines (`#`) and section
/// headers (`[`) are skipped; an option line is `key = value` with any
/// spacing around the first `=`; an unknown key is tolerated; a key seen
/// twice, or a bad value, fails the document.
pub open spec fn parse_config_line(line: Seq<char>, acc: ConfigAcc) -> Option<ConfigAcc> {
    let bare = if line.len() > 0 && line.last() == '\r' {
        line.drop_last()
    } else {
        line
    };
    let t = trimmed(bare);
    if t.len() == 0 {
        Some(acc)
    } else if t[0] == '[' || t[0] == '#' {
        Some(acc)
    } else {
        let i = find_char(t, '=');
        if !(0 <= i < t.len()) {
            None
        } else {
            let key = trim_back(t.take(i));
            let value = trim_front(t.skip(i + 1));
            if key.len() == 0 {
                None
            } else if key == "icon_theme"@ {
                match (acc.icon_theme, parse_quoted_value(value)) {
                    (None, Some(v)) => Some(ConfigAcc { icon_theme: Some(v), ..acc }),
                    _ => None,
                }
            } else if key == "icon_size"@ {
                match (acc.icon_size, parse_u16_value(value)) {
                    (None, Some(v)) => Some(ConfigAcc { icon_size: Some(v), ..acc }),
                    _ => None,
                }
            } else if key == "seperate_workspaces"@ {
                match (acc.seperate_workspaces, parse_bool_value(value)) {
                    (None, Some(v)) => Some(ConfigAcc { seperate_workspaces: Some(v), ..acc }),
                    _ => None,
                }
            } else if key == "sorting_mode"@ {
                match (acc.sorting_mode, parse_mode_value(value)) {
                    (None, Some(v)) => Some(ConfigAcc { sorting_mode: Some(v), ..acc }),
                    _ => None,
                }
            } else if key == "check_cache_validity"@ {
                match (acc.check_cache_validity, parse_bool_value(value)) {
                    (None, Some(v)) => Some(ConfigAcc { check_cache_validity: Some(v), ..acc }),
                    _ => None,
                }
            } else {
                Some(acc)
            }
        }
    }
}

/// Reads a whole document, line by line; the last line needs no newline.
pub open spec fn parse_config_lines(s: Seq<char>, acc: ConfigAcc) -> Option<ConfigAcc>
    decreases s.len(),
{
    if s.len() == 0 {
        Some(acc)
    } else {
        let nl = find_char(s, '\n');
        let line = if 0 <= nl < s.len() {
            s.take(nl)
        } else {
            s
        };
        let rest = if 0 <= nl < s.len() {
            s.skip(nl + 1)
        } else {
            Seq::<char>::empty()
        };
        match parse_config_line(line, acc) {
            Some(acc2) => parse_config_lines(rest, acc2),
            None => None,
        }
    }
}

/// What a configuration document means: all five options must be
/// present, each exactly once.
pub open spec fn spec_parse_config(s: Seq<char>) -> Option<ConfigAcc> {
    match parse_config_lines(s, empty_acc()) {
        Some(acc) => if acc.icon_theme is Some && acc.icon_size is Some
            && acc.seperate_workspaces is Some && acc.sorting_mode is Some
            && acc.check_cache_validity is Some {
            Some(acc)
        } else {
            None
        },
        None => None,
    }
}

/// The record a configuration stands for, option by option.
pub open spec fn config_model(c: Config) -> ConfigAcc {
    ConfigAcc {
        icon_theme: Some(c.general.icon_theme@),
        icon_size: Some(c.general.icon_size),
        seperate_workspaces: Some(c.general.seperate_workspaces),
        sorting_mode: Some(c.general.sorting_mode),
        check_cache_validity: Some(c.general.check_cache_validity),
    }
}

fn parse_quoted(value: &Vec<char>) -> (r: Option<Vec<char>>)
    ensures
        match r {
            Some(v) => parse_quoted_value(value@) == Some(v@),
            None => parse_quoted_value(value@) is None,
        },
{
    let n = value.len();
    if n >= 2 && value[0] == '"' && value[n - 1] == '"' {
        let inner = subrange_vec(value, 1, n - 1);
        unescape_field(&inner)
    } else {
        None
    }
}

fn parse_u16(value: &Vec<char>) -> (r: Option<u16>)
    ensures
        r == parse_u16_value(value@),
{
    let n = value.len();
    if n < 1 || n > 5 {
        return None;
    }
    let mut acc: u32 = 0;
    let mut k: usize = 0;
    proof {
        assert(value@.take(0) =~= Seq::<char>::empty());
    }
    while k < n
        invariant
            n == value@.len(),
            n <= 5,
            k <= n,
            acc <= 65535,
            dec_value(value@.take(k as int)) == Some(acc as int),
        decreases n - k,
    {
        let c = value[k] as u32;
        proof {
            assert(value@.take(k + 1).drop_last() =~= value@.take(k as int));
            assert(value@.take(k + 1).last() == value@[k as int]);
        }
        if !(48 <= c && c <= 57) {
            proof {
                lemma_dec_value_none(value@, k as int);
            }
            return None;
        }
        assert(acc * 10 + (c - 48) <= 655359) by (nonlinear_arith)
            requires
                acc <= 65535,
                c <= 57,
        ;
        let wide: u32 = acc * 10 + (c - 48);
        acc = wide;
        if acc > 65535 {
            proof {
                lemma_dec_value_grows(value@, k + 1, n as int);
            }
            return None;
        }
        k = k + 1;
    }
    proof {
        assert(value@.take(n as int) =~= value@);
    }
    Some(acc as u16)
}

proof fn lemma_dec_value_nonneg(s: Seq<char>)
    ensures
        match dec_value(s) {
            Some(x) => x >= 0,
            None => true,
        },
    decreases s.len(),
{
    if s.len() != 0 {
        lemma_dec_value_nonneg(s.drop_last());
        match dec_value(s.drop_last()) {
            Some(x) => {
                assert(x * 10 >= 0) by (nonlinear_arith)
                    requires
                        x >= 0,
                ;
            },
            None => {},
        }
    }
}

/// A digit run keeps its prefix's value as a lower bound: once a prefix
/// passes the cap the whole run does, or fails on a non-digit.
proof fn lemma_dec_value_grows(s: Seq<char>, k: int, n: int)
    requires
        0 <= k <= n == s.len(),
    ensures
        match (dec_value(s.take(k)), dec_value(s)) {
            (Some(a), Some(b)) => a <= b,
            (None, _) => dec_value(s) is None,
            _ => true,
        },
    decreases n - k,
{
    if k < n {
        lemma_dec_value_grows(s, k + 1, n);
        assert(s.take(k + 1).drop_last() =~= s.take(k));
        assert(s.take(k + 1).last() == s[k]);
        lemma_dec_value_nonneg(s.take(k));
        match dec_value(s.take(k)) {
            Some(a) => {
                match dec_value(s.take(k + 1)) {
                    Some(b) => {
                        assert(a <= b) by (nonlinear_arith)
                            requires
                                b == a * 10 + ((s[k] as u32) - 48),
                                48 <= s[k] as u32 <= 57,
                                a >= 0,
                        ;
                    },
                    None => {},
                }
            },
            None => {},
        }
        assert(s.take(n as int) =~= s);
    } else {
        assert(s.take(n as int) =~= s);
    }
}

/// A non-digit anywhere fails the whole run.
proof fn lemma_dec_value_none(s: Seq<char>, k: int)
    requires
        0 <= k < s.len(),
        !(48 <= s[k] as u32 <= 57),
    ensures
        dec_value(s) is None,
    decreases s.len() - k,
{
    if k == s.len() - 1 {
        assert(s.drop_last() =~= s.take(s.len() - 1));
    } else {
        lemma_dec_value_none(s.drop_last(), k);
    }
}

fn parse_bool(value: &Vec<char>) -> (r: Option<bool>)
    ensures
        r == parse_bool_value(value@),
{
    let s = string_of(value);
    if s.eq(&String::from_str("true")) {
        Some(true)
    } else if s.eq(&String::from_str("false")) {
        Some(false)
    } else {
        None
    }
}

fn parse_mode(value: &Vec<char>) -> (r: Option<SortingMode>)
    ensures
        r == parse_mode_value(value@),
{
    match parse_quoted(value) {
        Some(w) => {
            let s = string_of(&w);
            if s.eq(&String::from_str("Default")) {
                Some(SortingMode::Default)
            } else if s.eq(&String::from_str("AZ")) {
                Some(SortingMode::AZ)
            } else if s.eq(&String::from_str("Id")) {
                Some(SortingMode::Id)
            } else {
                None
            }
        },
        None => None,
    }
}

/// Reads a configuration document; `None` when it is not well-formed or
/// an option is missing.
#[verifier::rlimit(100)]
pub fn parse_config(content: &str) -> (r: Option<Config>)
    ensures
        match r {
            Some(c) => spec_parse_config(content@) == Some(config_model(c)),
            None => spec_parse_config(content@) is None,
        },
{
    let v = chars_of(content);
    let n = v.len();
    let mut pos: usize = 0;
    let mut theme: Option<String> = None;
    let mut size: Option<u16> = None;
    let mut sep: Option<bool> = None;
    let mut mode: Option<SortingMode> = None;
    let mut validity: Option<bool> = None;
    proof {
        assert(v@.skip(0) =~= v@);
    }
    while pos < n
        invariant
            n == v@.len(),
            v@ == content@,
            pos <= n,
            parse_config_lines(content@, empty_acc()) == parse_config_lines(
                v@.skip(pos as int),
                ConfigAcc {
                    icon_theme: opt_str_view(theme),
                    icon_size: size,
                    seperate_workspaces: sep,
                    sorting_mode: mode,
                    check_cache_validity: validity,
                },
            ),
        decreases n - pos,
    {
        let ghost acc0 = ConfigAcc {
            icon_theme: opt_str_view(theme),
            icon_size: size,
            seperate_workspaces: sep,
            sorting_mode: mode,
            check_cache_validity: validity,
        };
        let ghost rem = v@.skip(pos as int);
        let tail = subrange_vec(&v, pos, n);
        proof {
            assert(tail@ =~= rem);
        }
        let (line, next_pos): (Vec<char>, usize) = match find_in(&tail, '\n') {
            Some(i) => {
                proof {
                    assert(rem.take(i as int) =~= v@.subrange(pos as int, pos + i));
                }
                (subrange_vec(&v, pos, pos + i), pos + i + 1)
            },
            None => {
                proof {
                    lemma_find_char_bounds(rem, '\n');
                }
                (subrange_vec(&v, pos, n), n)
            },
        };
        let ghost lineg = line@;
        proof {
            if next_pos < n + 1 && next_pos > pos {
                assert(rem.skip(next_pos - pos) =~= v@.skip(next_pos as int));
            }
            assert(v@.skip(n as int) =~= Seq::<char>::empty());
        }
        let bare = if line.len() > 0 && line[line.len() - 1] == '\r' {
            subrange_vec(&line, 0, line.len() - 1)
        } else {
            line
        };
        proof {
            assert(bare@ == if lineg.len() > 0 && lineg.last() == '\r' {
                lineg.drop_last()
            } else {
                lineg
            }) by {
                if lineg.len() > 0 && lineg.last() == '\r' {
                    assert(bare@ =~= lineg.drop_last());
                }
            }
        }
        let t = trim_back_vec(&trim_front_vec(&bare));
        let parsed_ok: bool = if t.len() == 0 {
            true
        } else if t[0] == '[' || t[0] == '#' {
            true
        } else {
            match find_in(&t, '=') {
                None => false,
                Some(eq) => {
                    let keyraw = subrange_vec(&t, 0, eq);
                    let key_v = trim_back_vec(&keyraw);
                    let key = string_of(&key_v);
                    let valraw = subrange_vec(&t, eq + 1, t.len());
                    let value = trim_front_vec(&valraw);
                    proof {
                        assert(keyraw@ =~= t@.take(eq as int));
                        assert(valraw@ =~= t@.skip(eq + 1));
                    }
                    if key.as_str().is_empty() {
                        false
                    } else if key.eq(&String::from_str("icon_theme")) {
                    match (&theme, parse_quoted(&value)) {
                        (None, Some(w)) => {
                            theme = Some(string_of(&w));
                            true
                        },
                        _ => false,
                    }
                } else if key.eq(&String::from_str("icon_size")) {
                    match (&size, parse_u16(&value)) {
                        (None, Some(w)) => {
                            size = Some(w);
                            true
                        },
                        _ => false,
                    }
                } else if key.eq(&String::from_str("seperate_workspaces")) {
                    match (&sep, parse_bool(&value)) {
                        (None, Some(w)) => {
                            sep = Some(w);
                            true
                        },
                        _ => false,
                    }
                } else if key.eq(&String::from_str("sorting_mode")) {
                    match (&mode, parse_mode(&value)) {
                        (None, Some(w)) => {
                            mode = Some(w);
                            true
                        },
                        _ => false,
                    }
                    } else if key.eq(&String::from_str("check_cache_validity")) {
                        match (&validity, parse_bool(&value)) {
                            (None, Some(w)) => {
                                validity = Some(w);
                                true
                            },
                            _ => false,
                        }
                    } else {
                        true
                    }
                },
            }
        };
        if !parsed_ok {
            proof {
                assert(parse_config_line(lineg, acc0) is None);
                assert(parse_config_lines(rem, acc0) is None);
            }
            return None;
        }
        proof {
            let acc1 = ConfigAcc {
                icon_theme: opt_str_view(theme),
                icon_size: size,
                seperate_workspaces: sep,
                sorting_mode: mode,
                check_cache_validity: validity,
            };
            assert(parse_config_line(lineg, acc0) == Some(acc1));
            assert(parse_config_lines(rem, acc0) == parse_config_lines(
                v@.skip(next_pos as int),
                acc1,
            ));
        }
        pos = next_pos;
    }
    proof {
        assert(v@.skip(pos as int) =~= Seq::<char>::empty());
    }
    match (theme, size, sep, mode, validity) {
        (Some(t), Some(s), Some(p), Some(m), Some(c)) => Some(
            Config {
                general: GeneralConfig {
                    icon_theme: t,
                    icon_size: s,
                    seperate_workspaces: p,
                    sorting_mode: m,
                    check_cache_validity: c,
                },
            },
        ),
        _ => None,
    }
}

/// The text that a configuration is written back as: the same shape the
/// parser reads.
pub open spec fn spec_encode_config(m: ConfigAcc) -> Seq<char> {
    "[general]\nicon_theme = \""@ + escape(m.icon_theme->Some_0) + "\"\nicon_size = "@
        + dec_digits(m.icon_size->Some_0 as int) + "\nseperate_workspaces = "@ + (
    if m.seperate_workspaces->Some_0 {
        "true"@
    } else {
        "false"@
    }) + "\nsorting_mode = \""@ + (match m.sorting_mode->Some_0 {
        SortingMode::Default => "Default"@,
        SortingMode::AZ => "AZ"@,
        SortingMode::Id => "Id"@,
    }) + "\"\ncheck_cache_validity = "@ + (if m.check_cache_validity->Some_0 {
        "true"@
    } else {
        "false"@
    }) + "\n"@
}

/// Writes a configuration out in the shape the parser reads.
pub fn encode_config(c: &Config) -> (r: String)
    ensures
        r@ == spec_encode_config(config_model(*c)),
{
    let mut out = String::from_str("[general]\nicon_theme = \"");
    let tv = chars_of(c.general.icon_theme.as_str());
    out.append(string_of(&escape_field(&tv)).as_str());
    out.append("\"\nicon_size = ");
    out.append(decimal_string(c.general.icon_size as u64).as_str());
    out.append("\nseperate_workspaces = ");
    out.append(if c.general.seperate_workspaces {
        "true"
    } else {
        "false"
    });
    out.append("\nsorting_mode = \"");
    out.append(
        match c.general.sorting_mode {
            SortingMode::Default => "Default",
            SortingMode::AZ => "AZ",
            SortingMode::Id => "Id",
        },
    );
    out.append("\"\ncheck_cache_validity = ");
    out.append(if c.general.check_cache_validity {
        "true"
    } else {
        "false"
    });
    out.append("\n");
    out
}

/// Reads the configuration text found at the well-known path; a missing
/// file (`None`) or an unparsable document is replaced by the built-in
/// default. The caller writes the default back in that case.
pub fn load_or_create_config(content: Option<&str>) -> (r: Config)
    ensures
        match content {
            None => is_default_config(r),
            Some(s) => match spec_parse_config(s@) {
                Some(m) => config_model(r) == m,
                None => is_default_config(r),
            },
        },
{
    match content {
        None => default_config(),
        Some(s) => match parse_config(s) {
            Some(c) => c,
            None => default_config(),
        },
    }
}

} // verus!
