use vstd::prelude::*;

verus! {

/// Relies on alloc's String::push: appends exactly one character.
#[verifier::external_body]
pub fn push_char(s: &mut String, c: char)
    ensures
        final(s)@ == old(s)@.push(c),
{
    s.push(c);
}

/// The characters of `s`, in order, as a vector.
pub fn chars_of(s: &str) -> (r: Vec<char>)
    ensures
        r@ == s@,
{
    let mut r: Vec<char> = Vec::new();
    for c in it: s.chars()
        invariant
            r@ == it.seq().take(it.index() as int),
            it.seq() == s@,
    {
        r.push(c);
        proof {
            assert(r@ =~= it.seq().take(it.index() + 1));
        }
    }
    proof {
        assert(r@ =~= s@);
    }
    r
}

/// Index of the first occurrence of `c`, or -1 when `c` does not occur.
pub open spec fn find_char(s: Seq<char>, c: char) -> int
    decreases s.len(),
{
    if s.len() == 0 {
        -1
    } else if s[0] == c {
        0
    } else if find_char(s.drop_first(), c) == -1 {
        -1
    } else {
        1 + find_char(s.drop_first(), c)
    }
}

pub proof fn lemma_find_char_bounds(s: Seq<char>, c: char)
    ensures
        find_char(s, c) == -1 || (0 <= find_char(s, c) < s.len() && s[find_char(s, c)] == c),
        find_char(s, c) == -1 ==> forall|i: int| 0 <= i < s.len() ==> s[i] != c,
        0 <= find_char(s, c) ==> forall|i: int| 0 <= i < find_char(s, c) ==> s[i] != c,
    decreases s.len(),
{
    if s.len() != 0 && s[0] != c {
        lemma_find_char_bounds(s.drop_first(), c);
        assert forall|i: int| 1 <= i < s.len() implies s[i] == s.drop_first()[i - 1] by {}
    }
}

pub proof fn lemma_find_char_at(s: Seq<char>, c: char, k: int)
    requires
        0 <= k < s.len(),
        s[k] == c,
        forall|i: int| 0 <= i < k ==> s[i] != c,
    ensures
        find_char(s, c) == k,
    decreases s.len(),
{
    if k > 0 {
        lemma_find_char_at(s.drop_first(), c, k - 1);
    }
}

/// How one character is written in an escaped field: backslash, tab,
/// newline and carriage return become two-character escapes, everything
/// else stands for itself.
pub open spec fn escape_char(c: char) -> Seq<char> {
    if c == '\\' {
        seq!['\\', '\\']
    } else if c == '\t' {
        seq!['\\', 't']
    } else if c == '\n' {
        seq!['\\', 'n']
    } else if c == '\r' {
        seq!['\\', 'r']
    } else {
        seq![c]
    }
}

/// A whole field, escaped character by character.
pub open spec fn escape(s: Seq<char>) -> Seq<char>
    decreases s.len(),
{
    if s.len() == 0 {
        Seq::<char>::empty()
    } else {
        escape_char(s[0]) + escape(s.drop_first())
    }
}

/// The character an escape pair `\x` stands for, if `x` is a valid
/// escape letter.
pub open spec fn unescape_char(c: char) -> Option<char> {
    if c == '\\' {
        Some('\\')
    } else if c == 't' {
        Some('\t')
    } else if c == 'n' {
        Some('\n')
    } else if c == 'r' {
        Some('\r')
    } else {
        None
    }
}

/// Decodes an escaped field; `None` on a dangling backslash or an unknown
/// escape letter.
pub open spec fn unescape(s: Seq<char>) -> Option<Seq<char>>
    decreases s.len(),
{
    if s.len() == 0 {
        Some(Seq::<char>::empty())
    } else if s[0] == '\\' {
        if s.len() < 2 {
            None
        } else {
            match unescape_char(s[1]) {
                Some(d) => match unescape(s.skip(2)) {
                    Some(r) => Some(seq![d] + r),
                    None => None,
                },
                None => None,
            }
        }
    } else {
        match unescape(s.drop_first()) {
            Some(r) => Some(seq![s[0]] + r),
            None => None,
        }
    }
}

/// Escaping introduces no raw tab and no raw newline, so an escaped field
/// can be delimited by either.
pub proof fn lemma_escape_no_delimiters(s: Seq<char>)
    ensures
        forall|i: int|
            0 <= i < escape(s).len() ==> #[trigger] escape(s)[i] != '\t' && escape(s)[i] != '\n',
    decreases s.len(),
{
    if s.len() != 0 {
        lemma_escape_no_delimiters(s.drop_first());
        let h = escape_char(s[0]);
        let rest = escape(s.drop_first());
        assert forall|i: int| 0 <= i < escape(s).len() implies #[trigger] escape(s)[i] != '\t'
            && escape(s)[i] != '\n' by {
            if i < h.len() {
                assert(escape(s)[i] == h[i]);
            } else {
                assert(escape(s)[i] == rest[i - h.len()]);
            }
        }
    }
}

/// Escaping then unescaping gives the field back unchanged.
pub proof fn lemma_unescape_escape(s: Seq<char>)
    ensures
        unescape(escape(s)) == Some(s),
    decreases s.len(),
{
    if s.len() != 0 {
        let c = s[0];
        let e = escape(s);
        lemma_unescape_escape(s.drop_first());
        if c == '\\' || c == '\t' || c == '\n' || c == '\r' {
            assert(e.skip(2) =~= escape(s.drop_first()));
            assert(seq![c] + s.drop_first() =~= s);
        } else {
            assert(e.drop_first() =~= escape(s.drop_first()));
            assert(seq![c] + s.drop_first() =~= s);
        }
    }
}

/// Appending one character appends its escape.
pub proof fn lemma_escape_push(s: Seq<char>, c: char)
    ensures
        escape(s.push(c)) == escape(s) + escape_char(c),
    decreases s.len(),
{
    if s.len() == 0 {
        assert(s.push(c)[0] == c);
        assert(s.push(c).drop_first() =~= Seq::<char>::empty());
        assert(escape(Seq::<char>::empty()) == Seq::<char>::empty());
        assert(escape(s.push(c)) == escape_char(c) + Seq::<char>::empty());
        assert(escape_char(c) + Seq::<char>::empty() =~= escape_char(c));
        assert(escape(s) + escape_char(c) =~= escape_char(c));
    } else {
        assert(s.push(c)[0] == s[0]);
        assert(s.push(c).drop_first() =~= s.drop_first().push(c));
        lemma_escape_push(s.drop_first(), c);
        assert(escape(s.push(c)) == escape_char(s[0]) + (escape(s.drop_first()) + escape_char(
            c,
        )));
        assert(escape_char(s[0]) + (escape(s.drop_first()) + escape_char(c)) =~= (escape_char(
            s[0],
        ) + escape(s.drop_first())) + escape_char(c));
    }
}

/// Escapes a field for the cache file.
pub fn escape_field(v: &Vec<char>) -> (r: Vec<char>)
    ensures
        r@ == escape(v@),
{
    let mut r: Vec<char> = Vec::new();
    proof {
        assert(v@.take(0) =~= Seq::<char>::empty());
    }
    let n = v.len();
    let mut k: usize = 0;
    while k < n
        invariant
            n == v@.len(),
            k <= n,
            r@ == escape(v@.take(k as int)),
        decreases n - k,
    {
        let c = v[k];
        if c == '\\' {
            r.push('\\');
            r.push('\\');
        } else if c == '\t' {
            r.push('\\');
            r.push('t');
        } else if c == '\n' {
            r.push('\\');
            r.push('n');
        } else if c == '\r' {
            r.push('\\');
            r.push('r');
        } else {
            r.push(c);
        }
        proof {
            lemma_escape_push(v@.take(k as int), c);
            assert(v@.take(k + 1) =~= v@.take(k as int).push(c));
            assert(r@ =~= escape(v@.take(k + 1)));
        }
        k = k + 1;
    }
    proof {
        assert(v@.take(n as int) =~= v@);
    }
    r
}

/// Unescapes a field of the cache file; `None` when the text is not a
/// valid escaping.
pub fn unescape_field(v: &Vec<char>) -> (r: Option<Vec<char>>)
    ensures
        match r {
            Some(out) => unescape(v@) == Some(out@),
            None => unescape(v@) is None,
        },
{
    let mut out: Vec<char> = Vec::new();
    let n = v.len();
    let mut k: usize = 0;
    proof {
        assert(v@.skip(0) =~= v@);
        assert forall|t: Seq<char>| unescape(v@.skip(0)) == Some(t) implies unescape(v@) == Some(
            out@ + t,
        ) by {
            assert(out@ + t =~= t);
        }
    }
    while k < n
        invariant
            n == v@.len(),
            k <= n,
            forall|t: Seq<char>|
                unescape(v@.skip(k as int)) == Some(t) ==> unescape(v@) == Some(out@ + t),
            unescape(v@.skip(k as int)) is None ==> unescape(v@) is None,
        decreases n - k,
    {
        let ghost pre = out@;
        let ghost rem = v@.skip(k as int);
        let c = v[k];
        proof {
            assert(rem[0] == v@[k as int]);
        }
        if c == '\\' {
            if k + 1 >= n {
                proof {
                    assert(rem.len() == 1);
                    assert(unescape(rem) is None);
                }
                return None;
            }
            let d = v[k + 1];
            proof {
                assert(rem[1] == v@[k as int + 1]);
                assert(rem.skip(2) =~= v@.skip(k + 2));
            }
            if d == '\\' {
                out.push('\\');
            } else if d == 't' {
                out.push('\t');
            } else if d == 'n' {
                out.push('\n');
            } else if d == 'r' {
                out.push('\r');
            } else {
                proof {
                    assert(unescape_char(d) is None);
                    assert(unescape(rem) is None);
                }
                return None;
            }
            proof {
                let dd = unescape_char(d)->Some_0;
                assert(out@ =~= pre.push(dd));
                assert forall|t: Seq<char>|
                    unescape(v@.skip(k + 2)) == Some(t) implies unescape(v@) == Some(
                    out@ + t,
                ) by {
                    assert(unescape(rem) == Some(seq![dd] + t));
                    assert(pre + (seq![dd] + t) =~= out@ + t);
                }
            }
            k = k + 2;
        } else {
            out.push(c);
            proof {
                assert(rem.drop_first() =~= v@.skip(k + 1));
                assert(out@ =~= pre.push(c));
                assert forall|t: Seq<char>|
                    unescape(v@.skip(k + 1)) == Some(t) implies unescape(v@) == Some(
                    out@ + t,
                ) by {
                    assert(unescape(rem) == Some(seq![c] + t));
                    assert(pre + (seq![c] + t) =~= out@ + t);
                }
            }
            k = k + 1;
        }
    }
    proof {
        assert(v@.skip(k as int) =~= Seq::<char>::empty());
        assert(unescape(v@.skip(k as int)) == Some(Seq::<char>::empty()));
        assert(out@ + Seq::<char>::empty() =~= out@);
    }
    Some(out)
}

/// Index of the first occurrence of `c` in `v`, if any.
pub fn find_in(v: &Vec<char>, c: char) -> (r: Option<usize>)
    ensures
        match r {
            Some(i) => i < v@.len() && find_char(v@, c) == i as int,
            None => find_char(v@, c) == -1,
        },
{
    proof {
        lemma_find_char_bounds(v@, c);
    }
    let n = v.len();
    let mut k: usize = 0;
    while k < n
        invariant
            n == v@.len(),
            k <= n,
            forall|j: int| 0 <= j < k ==> v@[j] != c,
        decreases n - k,
    {
        if v[k] == c {
            proof {
                lemma_find_char_at(v@, c, k as int);
            }
            return Some(k);
        }
        k = k + 1;
    }
    None
}

/// Copies the characters with indices in `[a, b)`.
pub fn subrange_vec(v: &Vec<char>, a: usize, b: usize) -> (r: Vec<char>)
    requires
        a <= b <= v@.len(),
    ensures
        r@ == v@.subrange(a as int, b as int),
{
    let mut r: Vec<char> = Vec::new();
    let mut k: usize = a;
    proof {
        assert(v@.subrange(a as int, a as int) =~= Seq::<char>::empty());
    }
    while k < b
        invariant
            a <= k <= b <= v@.len(),
            r@ == v@.subrange(a as int, k as int),
        decreases b - k,
    {
        r.push(v[k]);
        proof {
            assert(r@ =~= v@.subrange(a as int, k + 1));
        }
        k = k + 1;
    }
    r
}

/// The view of an optional string.
pub open spec fn opt_str_view(o: Option<String>) -> Option<Seq<char>> {
    match o {
        Some(s) => Some(s@),
        None => None,
    }
}

/// The substring after the last occurrence of `c`, or the whole sequence
/// when `c` does not occur: `org.foo.bar` after `.` becomes `bar`.
pub open spec fn after_last(s: Seq<char>, c: char) -> Seq<char>
    decreases s.len(),
{
    if s.len() == 0 {
        Seq::<char>::empty()
    } else if s.last() == c {
        Seq::<char>::empty()
    } else {
        after_last(s.drop_last(), c).push(s.last())
    }
}

/// The substring before the first occurrence of `c`, or the whole
/// sequence when `c` does not occur.
pub open spec fn before_first(s: Seq<char>, c: char) -> Seq<char>
    decreases s.len(),
{
    if s.len() == 0 {
        Seq::<char>::empty()
    } else if s[0] == c {
        Seq::<char>::empty()
    } else {
        seq![s[0]] + before_first(s.drop_first(), c)
    }
}

proof fn lemma_after_last_at(s: Seq<char>, c: char, i: int)
    requires
        0 <= i < s.len(),
        s[i] == c,
        forall|j: int| i < j < s.len() ==> s[j] != c,
    ensures
        after_last(s, c) == s.skip(i + 1),
    decreases s.len(),
{
    if i == s.len() - 1 {
        assert(s.skip(i + 1) =~= Seq::<char>::empty());
    } else {
        assert(s.last() != c);
        lemma_after_last_at(s.drop_last(), c, i);
        assert(s.drop_last().skip(i + 1).push(s.last()) =~= s.skip(i + 1));
    }
}

proof fn lemma_after_last_none(s: Seq<char>, c: char)
    requires
        forall|j: int| 0 <= j < s.len() ==> s[j] != c,
    ensures
        after_last(s, c) == s,
    decreases s.len(),
{
    if s.len() != 0 {
        lemma_after_last_none(s.drop_last(), c);
        assert(s.drop_last().push(s.last()) =~= s);
    }
}

proof fn lemma_before_first_at(s: Seq<char>, c: char, i: int)
    requires
        0 <= i < s.len(),
        s[i] == c,
        forall|j: int| 0 <= j < i ==> s[j] != c,
    ensures
        before_first(s, c) == s.take(i),
    decreases s.len(),
{
    if i == 0 {
        assert(s.take(0) =~= Seq::<char>::empty());
    } else {
        assert(s[0] != c);
        lemma_before_first_at(s.drop_first(), c, i - 1);
        assert(seq![s[0]] + s.drop_first().take(i - 1) =~= s.take(i));
    }
}

proof fn lemma_before_first_none(s: Seq<char>, c: char)
    requires
        forall|j: int| 0 <= j < s.len() ==> s[j] != c,
    ensures
        before_first(s, c) == s,
    decreases s.len(),
{
    if s.len() != 0 {
        lemma_before_first_none(s.drop_first(), c);
        assert(seq![s[0]] + s.drop_first() =~= s);
    }
}

/// The substring of `s` after the last occurrence of `c`, or `s` itself
/// when `c` does not occur in it.
pub fn suffix_after_last(s: &str, c: char) -> (r: String)
    ensures
        r@ == after_last(s@, c),
{
    let v = chars_of(s);
    let n = v.len();
    let mut last: Option<usize> = None;
    let mut k: usize = 0;
    while k < n
        invariant
            n == v@.len(),
            k <= n,
            match last {
                Some(i) => i < k && v@[i as int] == c && forall|j: int| i < j < k ==> v@[j] != c,
                None => forall|j: int| 0 <= j < k ==> v@[j] != c,
            },
        decreases n - k,
    {
        if v[k] == c {
            last = Some(k);
        }
        k = k + 1;
    }
    match last {
        Some(i) => {
            proof {
                lemma_after_last_at(v@, c, i as int);
            }
            let tail = subrange_vec(&v, i + 1, n);
            proof {
                assert(tail@ =~= v@.skip(i + 1));
            }
            string_of(&tail)
        },
        None => {
            proof {
                lemma_after_last_none(v@, c);
            }
            string_of(&v)
        },
    }
}

/// The substring of `s` before the first occurrence of `c`, or `s` itself
/// when `c` does not occur in it.
pub fn prefix_before(s: &str, c: char) -> (r: String)
    ensures
        r@ == before_first(s@, c),
{
    let v = chars_of(s);
    match find_in(&v, c) {
        Some(i) => {
            proof {
                lemma_find_char_bounds(v@, c);
                lemma_before_first_at(v@, c, i as int);
            }
            let head = subrange_vec(&v, 0, i);
            proof {
                assert(head@ =~= v@.take(i as int));
            }
            string_of(&head)
        },
        None => {
            proof {
                lemma_find_char_bounds(v@, c);
                lemma_before_first_none(v@, c);
            }
            string_of(&v)
        },
    }
}

/// Lexicographic order on character sequences, by code point: the order
/// that Rust's `str` comparison gives.
pub open spec fn lex_le(a: Seq<char>, b: Seq<char>) -> bool
    decreases a.len(),
{
    if a.len() == 0 {
        true
    } else if b.len() == 0 {
        false
    } else if (a[0] as u32) == (b[0] as u32) {
        lex_le(a.drop_first(), b.drop_first())
    } else {
        (a[0] as u32) < (b[0] as u32)
    }
}

/// Any two sequences compare one way or the other.
pub proof fn lemma_lex_total(a: Seq<char>, b: Seq<char>)
    ensures
        lex_le(a, b) || lex_le(b, a),
    decreases a.len(),
{
    if a.len() != 0 && b.len() != 0 && (a[0] as u32) == (b[0] as u32) {
        lemma_lex_total(a.drop_first(), b.drop_first());
    }
}

/// Lexicographic order is transitive.
pub proof fn lemma_lex_trans(a: Seq<char>, b: Seq<char>, c: Seq<char>)
    requires
        lex_le(a, b),
        lex_le(b, c),
    ensures
        lex_le(a, c),
    decreases a.len(),
{
    if a.len() != 0 && b.len() != 0 && c.len() != 0 {
        if (a[0] as u32) == (b[0] as u32) && (b[0] as u32) == (c[0] as u32) {
            lemma_lex_trans(a.drop_first(), b.drop_first(), c.drop_first());
        }
    }
}

/// Whether `a` comes at or before `b` in lexicographic code-point order.
pub fn str_le(a: &str, b: &str) -> (r: bool)
    ensures
        r == lex_le(a@, b@),
{
    let av = chars_of(a);
    let bv = chars_of(b);
    let an = av.len();
    let bn = bv.len();
    let mut k: usize = 0;
    proof {
        assert(a@.skip(0) =~= a@);
        assert(b@.skip(0) =~= b@);
    }
    while k < an && k < bn
        invariant
            an == av@.len(),
            bn == bv@.len(),
            k <= an,
            k <= bn,
            lex_le(a@, b@) == lex_le(a@.skip(k as int), b@.skip(k as int)),
            av@ == a@,
            bv@ == b@,
        decreases an - k,
    {
        let x = av[k] as u32;
        let y = bv[k] as u32;
        proof {
            assert(a@.skip(k as int)[0] == a@[k as int]);
            assert(b@.skip(k as int)[0] == b@[k as int]);
            assert(a@.skip(k as int).drop_first() =~= a@.skip(k + 1));
            assert(b@.skip(k as int).drop_first() =~= b@.skip(k + 1));
        }
        if x < y {
            return true;
        }
        if x > y {
            return false;
        }
        k = k + 1;
    }
    proof {
        if k >= an {
            assert(a@.skip(k as int) =~= Seq::<char>::empty());
        } else {
            assert(b@.skip(k as int) =~= Seq::<char>::empty());
            assert(a@.skip(k as int).len() > 0);
        }
    }
    an <= bn
}

/// The string holding exactly the given characters.
pub fn string_of(v: &Vec<char>) -> (r: String)
    ensures
        r@ == v@,
{
    let mut r = String::new();
    let n = v.len();
    let mut k: usize = 0;
    while k < n
        invariant
            n == v@.len(),
            k <= n,
            r@ == v@.take(k as int),
        decreases n - k,
    {
        push_char(&mut r, v[k]);
        proof {
            assert(r@ =~= v@.take(k + 1));
        }
        k = k + 1;
    }
    proof {
        assert(r@ =~= v@);
    }
    r
}


/// The decimal digit characters of a non-negative number, most
/// significant first.
pub open spec fn dec_digits(n: int) -> Seq<char>
    decreases n,
{
    if n < 10 {
        seq![digit_char(n)]
    } else {
        dec_digits(n / 10).push(digit_char(n % 10))
    }
}

/// The character for one decimal digit.
pub open spec fn digit_char(d: int) -> char {
    if d == 0 {
        '0'
    } else if d == 1 {
        '1'
    } else if d == 2 {
        '2'
    } else if d == 3 {
        '3'
    } else if d == 4 {
        '4'
    } else if d == 5 {
        '5'
    } else if d == 6 {
        '6'
    } else if d == 7 {
        '7'
    } else if d == 8 {
        '8'
    } else {
        '9'
    }
}

/// Appends the decimal digits of `n`.
pub fn push_decimal(n: u64, out: &mut Vec<char>)
    ensures
        final(out)@ == old(out)@ + dec_digits(n as int),
    decreases n,
{
    if n >= 10 {
        push_decimal(n / 10, out);
    }
    let d = n % 10;
    let c: char = if d == 0 {
        '0'
    } else if d == 1 {
        '1'
    } else if d == 2 {
        '2'
    } else if d == 3 {
        '3'
    } else if d == 4 {
        '4'
    } else if d == 5 {
        '5'
    } else if d == 6 {
        '6'
    } else if d == 7 {
        '7'
    } else if d == 8 {
        '8'
    } else {
        '9'
    };
    out.push(c);
    proof {
        assert(out@ =~= old(out)@ + dec_digits(n as int));
    }
}

/// The decimal form of `n`.
pub fn decimal_string(n: u64) -> (r: String)
    ensures
        r@ == dec_digits(n as int),
{
    let mut v: Vec<char> = Vec::new();
    push_decimal(n, &mut v);
    proof {
        assert(v@ =~= dec_digits(n as int));
    }
    string_of(&v)
}


/// Space or tab: the blanks tolerated around keys and values.
pub open spec fn is_blank(c: char) -> bool {
    c == ' ' || c == '\t'
}

/// `s` without its leading blanks.
pub open spec fn trim_front(s: Seq<char>) -> Seq<char>
    decreases s.len(),
{
    if s.len() > 0 && is_blank(s[0]) {
        trim_front(s.drop_first())
    } else {
        s
    }
}

/// `s` without its trailing blanks.
pub open spec fn trim_back(s: Seq<char>) -> Seq<char>
    decreases s.len(),
{
    if s.len() > 0 && is_blank(s.last()) {
        trim_back(s.drop_last())
    } else {
        s
    }
}

/// `s` without leading or trailing blanks.
pub open spec fn trimmed(s: Seq<char>) -> Seq<char> {
    trim_back(trim_front(s))
}

/// Drops leading blanks.
pub fn trim_front_vec(v: &Vec<char>) -> (r: Vec<char>)
    ensures
        r@ == trim_front(v@),
{
    let n = v.len();
    let mut a: usize = 0;
    proof {
        assert(v@.skip(0) =~= v@);
    }
    while a < n && (v[a] == ' ' || v[a] == '\t')
        invariant
            n == v@.len(),
            a <= n,
            trim_front(v@) == trim_front(v@.skip(a as int)),
        decreases n - a,
    {
        proof {
            assert(v@.skip(a as int)[0] == v@[a as int]);
            assert(v@.skip(a as int).drop_first() =~= v@.skip(a + 1));
        }
        a = a + 1;
    }
    let r = subrange_vec(v, a, n);
    proof {
        assert(r@ =~= v@.skip(a as int));
        if a == n {
            assert(v@.skip(a as int).len() == 0);
        } else {
            assert(v@.skip(a as int)[0] == v@[a as int]);
        }
    }
    r
}

/// Drops trailing blanks.
pub fn trim_back_vec(v: &Vec<char>) -> (r: Vec<char>)
    ensures
        r@ == trim_back(v@),
{
    let n = v.len();
    let mut b: usize = n;
    proof {
        assert(v@.take(n as int) =~= v@);
    }
    while b > 0 && (v[b - 1] == ' ' || v[b - 1] == '\t')
        invariant
            n == v@.len(),
            b <= n,
            trim_back(v@) == trim_back(v@.take(b as int)),
        decreases b,
    {
        proof {
            assert(v@.take(b as int).last() == v@[b - 1]);
            assert(v@.take(b as int).drop_last() =~= v@.take(b - 1));
        }
        b = b - 1;
    }
    let r = subrange_vec(v, 0, b);
    proof {
        assert(r@ =~= v@.take(b as int));
        if b == 0 {
            assert(v@.take(0).len() == 0);
        } else {
            assert(v@.take(b as int).last() == v@[b - 1]);
        }
    }
    r
}

} // verus!
