use vstd::prelude::*;
use crate::snapshot::{SerializableState, Workspace, WindowEntry};
use crate::text::{chars_of, string_of, dec_digits, decimal_string};

verus! {

/// The character for one hexadecimal digit.
pub open spec fn hex_digit(d: int) -> char {
    if d == 0 {
        '0'
    } else if d == 1 {
        '1'
    } else if d == 2 {
        '2'
    } else if d == 3 {
        '3'
    } else if d == 4 {
        '4'
    } else if d == 5 {
        '5'
    } else if d == 6 {
        '6'
    } else if d == 7 {
        '7'
    } else if d == 8 {
        '8'
    } else if d == 9 {
        '9'
    } else if d == 10 {
        'a'
    } else if d == 11 {
        'b'
    } else if d == 12 {
        'c'
    } else if d == 13 {
        'd'
    } else if d == 14 {
        'e'
    } else {
        'f'
    }
}

/// How one character is written inside a JSON string: quote and
/// backslash are escaped, newline, carriage return and tab get their
/// short escapes, any other control character a `\u00..` escape, and
/// everything else stands for itself.
pub open spec fn json_escape_char(c: char) -> Seq<char> {
    if c == '"' {
        seq!['\\', '"']
    } else if c == '\\' {
        seq!['\\', '\\']
    } else if c == '\n' {
        seq!['\\', 'n']
    } else if c == '\r' {
        seq!['\\', 'r']
    } else if c == '\t' {
        seq!['\\', 't']
    } else if (c as u32) < 32 {
        seq!['\\', 'u', '0', '0', hex_digit((c as u32) as int / 16), hex_digit((c as u32) as int % 16)]
    } else {
        seq![c]
    }
}

/// A whole string body, escaped for JSON.
pub open spec fn json_escape(s: Seq<char>) -> Seq<char>
    decreases s.len(),
{
    if s.len() == 0 {
        Seq::<char>::empty()
    } else {
        json_escape_char(s[0]) + json_escape(s.drop_first())
    }
}

proof fn lemma_json_escape_push(s: Seq<char>, c: char)
    ensures
        json_escape(s.push(c)) == json_escape(s) + json_escape_char(c),
    decreases s.len(),
{
    if s.len() == 0 {
        assert(s.push(c)[0] == c);
        assert(s.push(c).drop_first() =~= Seq::<char>::empty());
        assert(json_escape(Seq::<char>::empty()) == Seq::<char>::empty());
        assert(json_escape(s.push(c)) == json_escape_char(c) + Seq::<char>::empty());
        assert(json_escape_char(c) + Seq::<char>::empty() =~= json_escape_char(c));
        assert(json_escape(s) + json_escape_char(c) =~= json_escape_char(c));
    } else {
        assert(s.push(c)[0] == s[0]);
        assert(s.push(c).drop_first() =~= s.drop_first().push(c));
        lemma_json_escape_push(s.drop_first(), c);
        assert(json_escape(s.push(c)) == json_escape_char(s[0]) + (json_escape(s.drop_first())
            + json_escape_char(c)));
        assert(json_escape_char(s[0]) + (json_escape(s.drop_first()) + json_escape_char(c)) =~= (
        json_escape_char(s[0]) + json_escape(s.drop_first())) + json_escape_char(c));
    }
}

fn hex_char(d: u32) -> (c: char)
    requires
        d < 16,
    ensures
        c == hex_digit(d as int),
{
    if d == 0 {
        '0'
    } else if d == 1 {
        '1'
    } else if d == 2 {
        '2'
    } else if d == 3 {
        '3'
    } else if d == 4 {
        '4'
    } else if d == 5 {
        '5'
    } else if d == 6 {
        '6'
    } else if d == 7 {
        '7'
    } else if d == 8 {
        '8'
    } else if d == 9 {
        '9'
    } else if d == 10 {
        'a'
    } else if d == 11 {
        'b'
    } else if d == 12 {
        'c'
    } else if d == 13 {
        'd'
    } else if d == 14 {
        'e'
    } else {
        'f'
    }
}

/// The body of a JSON string for `s`: every character escaped as JSON
/// asks.
pub fn json_escape_string(s: &str) -> (r: String)
    ensures
        r@ == json_escape(s@),
{
    let v = chars_of(s);
    let mut out: Vec<char> = Vec::new();
    let n = v.len();
    let mut k: usize = 0;
    proof {
        assert(v@.take(0) =~= Seq::<char>::empty());
    }
    while k < n
        invariant
            n == v@.len(),
            v@ == s@,
            k <= n,
            out@ == json_escape(v@.take(k as int)),
        decreases n - k,
    {
        let c = v[k];
        if c == '"' {
            out.push('\\');
            out.push('"');
        } else if c == '\\' {
            out.push('\\');
            out.push('\\');
        } else if c == '\n' {
            out.push('\\');
            out.push('n');
        } else if c == '\r' {
            out.push('\\');
            out.push('r');
        } else if c == '\t' {
            out.push('\\');
            out.push('t');
        } else if (c as u32) < 32 {
            out.push('\\');
            out.push('u');
            out.push('0');
            out.push('0');
            out.push(hex_char((c as u32) / 16));
            out.push(hex_char((c as u32) % 16));
        } else {
            out.push(c);
        }
        proof {
            lemma_json_escape_push(v@.take(k as int), c);
            assert(v@.take(k + 1) =~= v@.take(k as int).push(c));
            assert(out@ =~= json_escape(v@.take(k + 1)));
        }
        k = k + 1;
    }
    proof {
        assert(v@.take(n as int) =~= v@);
    }
    string_of(&out)
}

/// The JSON text of `true` or `false`.
pub open spec fn json_bool(b: bool) -> Seq<char> {
    if b {
        "true"@
    } else {
        "false"@
    }
}

/// One window object on the wire.
pub open spec fn json_window(e: WindowEntry) -> Seq<char> {
    "{\"id\":"@ + dec_digits(e.id as int) + ",\"app_id\":\""@ + json_escape(e.app_id@)
        + "\",\"title\":\""@ + json_escape(e.title@) + "\",\"icon_path\":\""@ + json_escape(
        e.icon_path@,
    ) + "\",\"is_focused\":"@ + json_bool(e.is_focused) + "}"@
}

/// A comma-separated array body of window objects.
pub open spec fn json_windows(s: Seq<WindowEntry>) -> Seq<char>
    decreases s.len(),
{
    if s.len() == 0 {
        Seq::<char>::empty()
    } else if s.len() == 1 {
        json_window(s[0])
    } else {
        json_windows(s.drop_last()) + ","@ + json_window(s.last())
    }
}

/// One workspace object on the wire.
pub open spec fn json_workspace(w: Workspace) -> Seq<char> {
    "{\"id\":"@ + dec_digits(w.id as int) + ",\"windows\":["@ + json_windows(w.windows@) + "]}"@
}

/// A comma-separated array body of workspace objects.
pub open spec fn json_workspaces(s: Seq<Workspace>) -> Seq<char>
    decreases s.len(),
{
    if s.len() == 0 {
        Seq::<char>::empty()
    } else if s.len() == 1 {
        json_workspace(s[0])
    } else {
        json_workspaces(s.drop_last()) + ","@ + json_workspace(s.last())
    }
}

/// The one JSON document emitted per processed event.
pub open spec fn json_state(st: SerializableState) -> Seq<char> {
    "{\"workspaces\":["@ + json_workspaces(st.workspaces@) + "]}"@
}

fn window_to_json(e: &WindowEntry) -> (r: String)
    ensures
        r@ == json_window(*e),
{
    let mut out = String::from_str("{\"id\":");
    out.append(decimal_string(e.id).as_str());
    out.append(",\"app_id\":\"");
    out.append(json_escape_string(e.app_id.as_str()).as_str());
    out.append("\",\"title\":\"");
    out.append(json_escape_string(e.title.as_str()).as_str());
    out.append("\",\"icon_path\":\"");
    out.append(json_escape_string(e.icon_path.as_str()).as_str());
    out.append("\",\"is_focused\":");
    out.append(if e.is_focused {
        "true"
    } else {
        "false"
    });
    out.append("}");
    proof {
        assert(out@ =~= json_window(*e));
    }
    out
}

fn workspace_to_json(w: &Workspace) -> (r: String)
    ensures
        r@ == json_workspace(*w),
{
    let mut out = String::from_str("{\"id\":");
    out.append(decimal_string(w.id).as_str());
    out.append(",\"windows\":[");
    let n = w.windows.len();
    let mut k: usize = 0;
    proof {
        assert(w.windows@.take(0) =~= Seq::<WindowEntry>::empty());
        assert(json_windows(w.windows@.take(0)) =~= Seq::<char>::empty());
    }
    while k < n
        invariant
            n == w.windows@.len(),
            k <= n,
            out@ == "{\"id\":"@ + dec_digits(w.id as int) + ",\"windows\":["@ + json_windows(
                w.windows@.take(k as int),
            ),
        decreases n - k,
    {
        if k > 0 {
            out.append(",");
        }
        out.append(window_to_json(&w.windows[k]).as_str());
        proof {
            assert(w.windows@.take(k + 1).drop_last() =~= w.windows@.take(k as int));
            assert(w.windows@.take(k + 1).last() == w.windows@[k as int]);
            assert(out@ =~= "{\"id\":"@ + dec_digits(w.id as int) + ",\"windows\":["@
                + json_windows(w.windows@.take(k + 1)));
        }
        k = k + 1;
    }
    out.append("]}");
    proof {
        assert(w.windows@.take(n as int) =~= w.windows@);
        assert(out@ =~= json_workspace(*w));
    }
    out
}

impl SerializableState {
    /// The snapshot as one JSON document, the shape the widget reads:
    /// `{"workspaces":[{"id":..,"windows":[..]}]}`.
    pub fn to_json(&self) -> (r: String)
        ensures
            r@ == json_state(*self),
    {
        let mut out = String::from_str("{\"workspaces\":[");
        let n = self.workspaces.len();
        let mut k: usize = 0;
        proof {
            assert(self.workspaces@.take(0) =~= Seq::<Workspace>::empty());
            assert(json_workspaces(self.workspaces@.take(0)) =~= Seq::<char>::empty());
        }
        while k < n
            invariant
                n == self.workspaces@.len(),
                k <= n,
                out@ == "{\"workspaces\":["@ + json_workspaces(self.workspaces@.take(k as int)),
            decreases n - k,
        {
            if k > 0 {
                out.append(",");
            }
            out.append(workspace_to_json(&self.workspaces[k]).as_str());
            proof {
                assert(self.workspaces@.take(k + 1).drop_last() =~= self.workspaces@.take(
                    k as int,
                ));
                assert(self.workspaces@.take(k + 1).last() == self.workspaces@[k as int]);
                assert(out@ =~= "{\"workspaces\":["@ + json_workspaces(
                    self.workspaces@.take(k + 1),
                ));
            }
            k = k + 1;
        }
        out.append("]}");
        proof {
            assert(self.workspaces@.take(n as int) =~= self.workspaces@);
            assert(out@ =~= json_state(*self));
        }
        out
    }
}

} // verus!
