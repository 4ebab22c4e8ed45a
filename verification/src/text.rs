//! Character-level helpers over `str` and `String`, each with the specification the rest of the
//! library reasons with. Strings are modelled by their view, a `Seq<char>`.

use vstd::prelude::*;
use vstd::string::*;

verus! {

// ---------------------------------------------------------------------------------------------
// Characters
// ---------------------------------------------------------------------------------------------

/// The Unicode `White_Space` property, which is what `char::is_whitespace` tests.
pub open spec fn is_ws(c: char) -> bool {
    ||| c == ' '
    ||| ('\t' <= c && c <= '\r')
    ||| c == '\u{85}'
    ||| c == '\u{A0}'
    ||| c == '\u{1680}'
    ||| ('\u{2000}' <= c && c <= '\u{200A}')
    ||| c == '\u{2028}'
    ||| c == '\u{2029}'
    ||| c == '\u{202F}'
    ||| c == '\u{205F}'
    ||| c == '\u{3000}'
}

pub fn is_ws_char(c: char) -> (r: bool)
    ensures
        r == is_ws(c),
{
    c == ' ' || ('\t' <= c && c <= '\r') || c == '\u{85}' || c == '\u{A0}' || c == '\u{1680}' || (
    '\u{2000}' <= c && c <= '\u{200A}') || c == '\u{2028}' || c == '\u{2029}' || c == '\u{202F}'
        || c == '\u{205F}' || c == '\u{3000}'
}

pub open spec fn is_ascii_alnum(c: char) -> bool {
    ('a' <= c && c <= 'z') || ('A' <= c && c <= 'Z') || ('0' <= c && c <= '9')
}

pub fn ascii_alnum(c: char) -> (r: bool)
    ensures
        r == is_ascii_alnum(c),
{
    ('a' <= c && c <= 'z') || ('A' <= c && c <= 'Z') || ('0' <= c && c <= '9')
}

pub open spec fn is_digit(c: char) -> bool {
    '0' <= c && c <= '9'
}

pub open spec fn digit_value(c: char) -> nat {
    ((c as int) - ('0' as int)) as nat
}

pub open spec fn digit_char(d: nat) -> char {
    if d == 0 {
        '0'
    } else if d == 1 {
        '1'
    } else if d == 2 {
        '2'
    } else if d == 3 {
        '3'
    } else if d == 4 {
        '4'
    } else if d == 5 {
        '5'
    } else if d == 6 {
        '6'
    } else if d == 7 {
        '7'
    } else if d == 8 {
        '8'
    } else {
        '9'
    }
}

/// `String::push` (std): appends `c`, so the text becomes what it was followed by `c`.
#[verifier::external_body]
pub(crate) fn push_char(s: &mut String, c: char)
    ensures
        final(s)@ == old(s)@.push(c),
{
    s.push(c)
}

pub fn push_str(s: &mut String, t: &str)
    ensures
        final(s)@ == old(s)@ + t@,
{
    s.append(t);
}

// ---------------------------------------------------------------------------------------------
// Searching
// ---------------------------------------------------------------------------------------------

/// Index of the first `c` in `s`, or -1.
pub open spec fn find_char(s: Seq<char>, c: char) -> int
    decreases s.len(),
{
    if s.len() == 0 {
        -1
    } else if s[0] == c {
        0
    } else {
        let r = find_char(s.skip(1), c);
        if r < 0 {
            -1
        } else {
            r + 1
        }
    }
}

pub proof fn lemma_find_char(s: Seq<char>, c: char)
    ensures
        s.contains(c) ==> {
            let i = find_char(s, c);
            &&& 0 <= i < s.len()
            &&& s[i] == c
            &&& forall|j: int| 0 <= j < i ==> s[j] != c
        },
        !s.contains(c) ==> find_char(s, c) == -1,
    decreases s.len(),
{
    if s.len() > 0 {
        lemma_find_char(s.skip(1), c);
        if s[0] != c {
            if s.contains(c) {
                let k = choose|k: int| 0 <= k < s.len() && s[k] == c;
                assert(s.skip(1)[k - 1] == c);
            }
            if s.skip(1).contains(c) {
                let k = choose|k: int| 0 <= k < s.skip(1).len() && s.skip(1)[k] == c;
                assert(s[k + 1] == c);
                let i = find_char(s, c);
                assert forall|j: int| 0 <= j < i implies s[j] != c by {
                    if j > 0 {
                        assert(s[j] == s.skip(1)[j - 1]);
                    }
                }
            }
        }
    }
}

/// The first index of `c` in `s`, if any.
pub fn index_of(s: &str, c: char) -> (r: Option<usize>)
    ensures
        r is None <==> !s@.contains(c),
        r is Some ==> r->0 == find_char(s@, c),
        r is Some ==> r->0 < s@.len(),
{
    proof {
        lemma_find_char(s@, c);
    }
    let n = s.unicode_len();
    let mut i: usize = 0;
    while i < n
        invariant
            n == s@.len(),
            i <= n,
            forall|j: int| 0 <= j < i ==> s@[j] != c,
        decreases n - i,
    {
        if s.get_char(i) == c {
            proof {
                assert(s@[i as int] == c);
                assert(s@.contains(c));
                lemma_find_char(s@, c);
                let f = find_char(s@, c);
                if f < i {
                    assert(s@[f] == c);
                }
                if f > i {
                    assert(s@[i as int] != c);
                }
            }
            return Some(i);
        }
        i = i + 1;
    }
    None
}

pub fn has_char(s: &str, c: char) -> (r: bool)
    ensures
        r == s@.contains(c),
{
    index_of(s, c).is_some()
}

pub open spec fn is_prefix(p: Seq<char>, s: Seq<char>) -> bool {
    p.len() <= s.len() && s.take(p.len() as int) == p
}

pub fn starts_with(s: &str, p: &str) -> (r: bool)
    ensures
        r == is_prefix(p@, s@),
{
    let n = s.unicode_len();
    let m = p.unicode_len();
    if m > n {
        return false;
    }
    let mut i: usize = 0;
    while i < m
        invariant
            n == s@.len(),
            m == p@.len(),
            m <= n,
            i <= m,
            forall|j: int| 0 <= j < i ==> s@[j] == p@[j],
        decreases m - i,
    {
        if s.get_char(i) != p.get_char(i) {
            assert(s@.take(m as int)[i as int] != p@[i as int]);
            return false;
        }
        i = i + 1;
    }
    assert(s@.take(m as int) =~= p@);
    true
}

pub fn str_eq(a: &str, b: &str) -> (r: bool)
    ensures
        r == (a@ == b@),
{
    let n = a.unicode_len();
    if n != b.unicode_len() {
        return false;
    }
    let mut i: usize = 0;
    while i < n
        invariant
            n == a@.len(),
            n == b@.len(),
            i <= n,
            forall|j: int| 0 <= j < i ==> a@[j] == b@[j],
        decreases n - i,
    {
        if a.get_char(i) != b.get_char(i) {
            return false;
        }
        i = i + 1;
    }
    assert(a@ =~= b@);
    true
}

pub fn copy_str(s: &str) -> (r: String)
    ensures
        r@ == s@,
{
    s.to_owned()
}

// ---------------------------------------------------------------------------------------------
// Joining
// ---------------------------------------------------------------------------------------------

/// `list` joined by `sep`, as `[T]::join`.
pub open spec fn seq_join(list: Seq<Seq<char>>, sep: Seq<char>) -> Seq<char>
    decreases list.len(),
{
    if list.len() == 0 {
        Seq::empty()
    } else if list.len() == 1 {
        list[0]
    } else {
        seq_join(list.drop_last(), sep) + sep + list.last()
    }
}

pub open spec fn views(v: Seq<String>) -> Seq<Seq<char>> {
    v.map_values(|s: String| s@)
}

pub fn join(list: &Vec<String>, sep: &str) -> (r: String)
    ensures
        r@ == seq_join(views(list@), sep@),
{
    let mut out = String::new();
    let n = list.len();
    let mut i: usize = 0;
    while i < n
        invariant
            n == list@.len(),
            i <= n,
            out@ == seq_join(views(list@).take(i as int), sep@),
        decreases n - i,
    {
        let ghost before = views(list@).take(i as int);
        if i > 0 {
            push_str(&mut out, sep);
        }
        push_str(&mut out, list[i].as_str());
        proof {
            let after = views(list@).take(i + 1);
            assert(after.drop_last() =~= before);
            assert(after.last() == list@[i as int]@);
        }
        i = i + 1;
    }
    assert(views(list@).take(n as int) =~= views(list@));
    out
}

/// Concatenation of a sequence of strings.
pub open spec fn concat(list: Seq<Seq<char>>) -> Seq<char>
    decreases list.len(),
{
    if list.len() == 0 {
        Seq::empty()
    } else {
        concat(list.drop_last()) + list.last()
    }
}

/// Flattening of a sequence of sequences of lines.
pub open spec fn flatten_lines(list: Seq<Seq<Seq<char>>>) -> Seq<Seq<char>>
    decreases list.len(),
{
    if list.len() == 0 {
        Seq::empty()
    } else {
        flatten_lines(list.drop_last()) + list.last()
    }
}

// ---------------------------------------------------------------------------------------------
// Numbers
// ---------------------------------------------------------------------------------------------

/// Decimal digits of `n`, most significant first, as `Display` writes an unsigned integer.
pub open spec fn decimal(n: nat) -> Seq<char>
    decreases n,
{
    if n < 10 {
        seq![digit_char(n)]
    } else {
        decimal(n / 10).push(digit_char(n % 10))
    }
}

fn digit(d: u64) -> (c: char)
    requires
        d < 10,
    ensures
        c == digit_char(d as nat),
{
    if d == 0 {
        '0'
    } else if d == 1 {
        '1'
    } else if d == 2 {
        '2'
    } else if d == 3 {
        '3'
    } else if d == 4 {
        '4'
    } else if d == 5 {
        '5'
    } else if d == 6 {
        '6'
    } else if d == 7 {
        '7'
    } else if d == 8 {
        '8'
    } else {
        '9'
    }
}

pub fn push_decimal(s: &mut String, n: u64)
    ensures
        final(s)@ == old(s)@ + decimal(n as nat),
    decreases n,
{
    if n >= 10 {
        push_decimal(s, n / 10);
    }
    push_char(s, digit(n % 10));
}

pub fn decimal_string(n: u64) -> (r: String)
    ensures
        r@ == decimal(n as nat),
{
    let mut s = String::new();
    push_decimal(&mut s, n);
    s
}

pub proof fn lemma_decimal_digits(n: nat)
    ensures
        decimal(n).len() > 0,
        forall|i: int| 0 <= i < decimal(n).len() ==> is_digit(#[trigger] decimal(n)[i]),
    decreases n,
{
    if n >= 10 {
        lemma_decimal_digits(n / 10);
    }
}

/// Value of a string of decimal digits.
pub open spec fn digits_value(s: Seq<char>) -> nat
    decreases s.len(),
{
    if s.len() == 0 {
        0
    } else {
        digits_value(s.drop_last()) * 10 + digit_value(s.last())
    }
}

pub open spec fn all_digits(s: Seq<char>) -> bool {
    forall|i: int| 0 <= i < s.len() ==> is_digit(#[trigger] s[i])
}

/// What `str::parse::<u32>` accepts: an optional `+`, then one or more ASCII digits whose value
/// fits in a `u32`.
pub open spec fn parse_u32(s: Seq<char>) -> Option<u32> {
    let body = if s.len() > 0 && s[0] == '+' {
        s.skip(1)
    } else {
        s
    };
    if body.len() > 0 && all_digits(body) && digits_value(body) <= u32::MAX {
        Some(digits_value(body) as u32)
    } else {
        None
    }
}

proof fn lemma_digits_value_mono(s: Seq<char>, i: int)
    requires
        0 <= i <= s.len(),
        all_digits(s),
    ensures
        digits_value(s.take(i)) <= digits_value(s),
    decreases s.len() - i,
{
    if i < s.len() {
        lemma_digits_value_mono(s, i + 1);
        assert(s.take(i + 1).drop_last() =~= s.take(i));
        assert(digits_value(s.take(i + 1)) == digits_value(s.take(i)) * 10 + digit_value(
            s.take(i + 1).last(),
        ));
    } else {
        assert(s.take(i) =~= s);
    }
}

pub fn parse_u32_str(s: &str) -> (r: Option<u32>)
    ensures
        r == parse_u32(s@),
{
    let n = s.unicode_len();
    let start: usize = if n > 0 && s.get_char(0) == '+' {
        1
    } else {
        0
    };
    let body = s.substring_char(start, n);
    assert(body@ == (if s@.len() > 0 && s@[0] == '+' {
        s@.skip(1)
    } else {
        s@
    })) by {
        if start == 0 {
            assert(s@.subrange(0, n as int) =~= s@);
        }
    }
    digits_u32(body)
}

/// Value of a non-empty string of digits that fits in a `u32`.
fn digits_u32(body: &str) -> (r: Option<u32>)
    ensures
        r == (if body@.len() > 0 && all_digits(body@) && digits_value(body@) <= u32::MAX {
            Some(digits_value(body@) as u32)
        } else {
            None::<u32>
        }),
{
    let n = body.unicode_len();
    if n == 0 {
        return None;
    }
    let mut value: u64 = 0;
    let mut i: usize = 0;
    assert(body@.take(0) =~= Seq::<char>::empty());
    while i < n
        invariant
            n == body@.len(),
            i <= n,
            forall|j: int| 0 <= j < i ==> is_digit(#[trigger] body@[j]),
            value == digits_value(body@.take(i as int)),
            value <= u32::MAX,
        decreases n - i,
    {
        let c = body.get_char(i);
        if !('0' <= c && c <= '9') {
            assert(!is_digit(body@[i as int]));
            return None;
        }
        let d = (c as u64) - ('0' as u64);
        proof {
            assert(body@.take(i + 1).drop_last() =~= body@.take(i as int));
            assert(body@.take(i + 1).last() == c);
        }
        if value > (u32::MAX as u64 - d) / 10 {
            proof {
                assert(value * 10 + d > u32::MAX) by (nonlinear_arith)
                    requires
                        value > (u32::MAX as u64 - d) / 10,
                        d < 10,
                ;
                if all_digits(body@) {
                    lemma_digits_value_mono(body@, i + 1);
                }
            }
            return None;
        }
        value = value * 10 + d;
        i = i + 1;
    }
    assert(body@.take(n as int) =~= body@);
    Some(value as u32)
}

// ---------------------------------------------------------------------------------------------
// Trimming and splitting
// ---------------------------------------------------------------------------------------------

pub open spec fn all_ws(s: Seq<char>) -> bool {
    forall|i: int| 0 <= i < s.len() ==> is_ws(#[trigger] s[i])
}

pub open spec fn trim_start(s: Seq<char>) -> Seq<char>
    decreases s.len(),
{
    if s.len() > 0 && is_ws(s[0]) {
        trim_start(s.skip(1))
    } else {
        s
    }
}

pub open spec fn trim_end(s: Seq<char>) -> Seq<char>
    decreases s.len(),
{
    if s.len() > 0 && is_ws(s.last()) {
        trim_end(s.drop_last())
    } else {
        s
    }
}

/// `str::trim`: leading and trailing whitespace removed.
pub open spec fn trim(s: Seq<char>) -> Seq<char> {
    trim_end(trim_start(s))
}

pub proof fn lemma_trim_start_skip(s: Seq<char>, k: int)
    requires
        0 <= k <= s.len(),
        forall|j: int| 0 <= j < k ==> is_ws(#[trigger] s[j]),
        k == s.len() || !is_ws(s[k]),
    ensures
        trim_start(s) == s.skip(k),
    decreases k,
{
    if k == 0 {
        assert(s.skip(0) =~= s);
    } else {
        assert forall|j: int| 0 <= j < k - 1 implies is_ws(#[trigger] s.skip(1)[j]) by {
            assert(s.skip(1)[j] == s[j + 1]);
        }
        lemma_trim_start_skip(s.skip(1), k - 1);
        assert(s.skip(1).skip(k - 1) =~= s.skip(k));
    }
}

pub proof fn lemma_trim_end_take(s: Seq<char>, k: int)
    requires
        0 <= k <= s.len(),
        forall|j: int| k <= j < s.len() ==> is_ws(#[trigger] s[j]),
        k == 0 || !is_ws(s[k - 1]),
    ensures
        trim_end(s) == s.take(k),
    decreases s.len() - k,
{
    if k == s.len() {
        assert(s.take(k) =~= s);
    } else {
        assert forall|j: int| k <= j < s.drop_last().len() implies is_ws(
            #[trigger] s.drop_last()[j],
        ) by {
            assert(s.drop_last()[j] == s[j]);
        }
        lemma_trim_end_take(s.drop_last(), k);
        assert(s.drop_last().take(k) =~= s.take(k));
    }
}

pub proof fn lemma_trim_empty_iff(s: Seq<char>)
    ensures
        trim(s).len() == 0 <==> all_ws(s),
{
    let mut k: int = 0;
    // first non-whitespace index
    if all_ws(s) {
        lemma_trim_start_skip(s, s.len() as int);
        assert(s.skip(s.len() as int) =~= Seq::<char>::empty());
    } else {
        let i = choose|i: int| 0 <= i < s.len() && !is_ws(s[i]);
        let f = first_non_ws(s);
        lemma_first_non_ws(s);
        lemma_trim_start_skip(s, f);
        let t = s.skip(f);
        assert(t.len() > 0 && !is_ws(t[0]));
        lemma_trim_end_nonempty(t);
    }
}

proof fn lemma_trim_end_nonempty(t: Seq<char>)
    requires
        t.len() > 0,
        !is_ws(t[0]),
    ensures
        trim_end(t).len() > 0,
    decreases t.len(),
{
    if t.len() > 1 && is_ws(t.last()) {
        lemma_trim_end_nonempty(t.drop_last());
    }
}

pub open spec fn first_non_ws(s: Seq<char>) -> int
    decreases s.len(),
{
    if s.len() == 0 || !is_ws(s[0]) {
        0
    } else {
        1 + first_non_ws(s.skip(1))
    }
}

pub proof fn lemma_first_non_ws(s: Seq<char>)
    ensures
        0 <= first_non_ws(s) <= s.len(),
        forall|j: int| 0 <= j < first_non_ws(s) ==> is_ws(#[trigger] s[j]),
        first_non_ws(s) == s.len() || !is_ws(s[first_non_ws(s)]),
    decreases s.len(),
{
    if s.len() > 0 && is_ws(s[0]) {
        lemma_first_non_ws(s.skip(1));
        assert forall|j: int| 0 <= j < first_non_ws(s) implies is_ws(#[trigger] s[j]) by {
            if j > 0 {
                assert(s[j] == s.skip(1)[j - 1]);
            }
        }
    }
}

/// `str::trim`.
pub fn trim_str(s: &str) -> (r: String)
    ensures
        r@ == trim(s@),
{
    let n = s.unicode_len();
    let mut a: usize = 0;
    while a < n && is_ws_char(s.get_char(a))
        invariant
            n == s@.len(),
            a <= n,
            forall|j: int| 0 <= j < a ==> is_ws(#[trigger] s@[j]),
        decreases n - a,
    {
        a = a + 1;
    }
    proof {
        lemma_trim_start_skip(s@, a as int);
    }
    let mut b: usize = n;
    while b > a && is_ws_char(s.get_char(b - 1))
        invariant
            n == s@.len(),
            a <= b <= n,
            forall|j: int| b <= j < n ==> is_ws(#[trigger] s@[j]),
        decreases b,
    {
        b = b - 1;
    }
    proof {
        let t = s@.skip(a as int);
        assert forall|j: int| b - a <= j < t.len() implies is_ws(#[trigger] t[j]) by {
            assert(t[j] == s@[j + a]);
        }
        if b > a {
            assert(t[b - a - 1] == s@[b - 1]);
        }
        lemma_trim_end_take(t, b - a);
        assert(t.take(b - a) =~= s@.subrange(a as int, b as int));
    }
    let r = s.substring_char(a, b);
    r.to_owned()
}

/// `str::split` on one character: always at least one piece.
pub open spec fn split_on(s: Seq<char>, c: char) -> Seq<Seq<char>>
    decreases s.len(),
{
    if !s.contains(c) {
        seq![s]
    } else {
        let i = find_char(s, c);
        if 0 <= i < s.len() {
            seq![s.take(i)] + split_on(s.skip(i + 1), c)
        } else {
            seq![s]
        }
    }
}

/// There is always a piece, and never more than one per character plus one.
pub proof fn lemma_split_len(s: Seq<char>, c: char)
    ensures
        1 <= split_on(s, c).len() <= s.len() + 1,
    decreases s.len(),
{
    lemma_find_char(s, c);
    if s.contains(c) {
        let i = find_char(s, c);
        lemma_split_len(s.skip(i + 1), c);
    }
}

pub fn split_str(s: &str, c: char) -> (r: Vec<String>)
    ensures
        views(r@) == split_on(s@, c),
    decreases s@.len(),
{
    proof {
        lemma_find_char(s@, c);
    }
    match index_of(s, c) {
        None => {
            let v = vec![s.to_owned()];
            assert(views(v@) =~= seq![s@]);
            v
        },
        Some(i) => {
            let n = s.unicode_len();
            let head = s.substring_char(0, i).to_owned();
            let rest = s.substring_char(i + 1, n);
            assert(rest@ == s@.skip(i + 1));
            let tail = split_str(rest, c);
            let mut v = vec![head];
            let mut tail = tail;
            v.append(&mut tail);
            assert(views(v@) =~= seq![s@.take(i as int)] + split_on(s@.skip(i + 1), c));
            v
        },
    }
}

/// `str::lines`: pieces split at `\n`, each losing one `\r` that stood before its `\n`; a final
/// line ending adds no empty line.
pub open spec fn lines(s: Seq<char>) -> Seq<Seq<char>>
    decreases s.len(),
{
    if s.len() == 0 {
        Seq::empty()
    } else if !s.contains('\n') {
        seq![s]
    } else {
        let i = find_char(s, '\n');
        if 0 <= i < s.len() {
            seq![strip_cr(s.take(i))] + lines(s.skip(i + 1))
        } else {
            seq![s]
        }
    }
}

pub open spec fn strip_cr(s: Seq<char>) -> Seq<char> {
    if s.len() > 0 && s.last() == '\r' {
        s.drop_last()
    } else {
        s
    }
}

pub fn lines_of(s: &str) -> (r: Vec<String>)
    ensures
        views(r@) == lines(s@),
    decreases s@.len(),
{
    proof {
        lemma_find_char(s@, '\n');
    }
    let n = s.unicode_len();
    if n == 0 {
        let v: Vec<String> = Vec::new();
        assert(views(v@) =~= Seq::<Seq<char>>::empty());
        return v;
    }
    match index_of(s, '\n') {
        None => {
            let v = vec![s.to_owned()];
            assert(views(v@) =~= seq![s@]);
            v
        },
        Some(i) => {
            let head = if i > 0 && s.get_char(i - 1) == '\r' {
                s.substring_char(0, i - 1).to_owned()
            } else {
                s.substring_char(0, i).to_owned()
            };
            assert(head@ == strip_cr(s@.take(i as int))) by {
                if i > 0 && s@[i - 1] == '\r' {
                    assert(s@.take(i as int).drop_last() =~= s@.subrange(0, i - 1));
                }
            }
            let rest = s.substring_char(i + 1, n);
            assert(rest@ == s@.skip(i + 1));
            let mut tail = lines_of(rest);
            let mut v = vec![head];
            v.append(&mut tail);
            assert(views(v@) =~= seq![strip_cr(s@.take(i as int))] + lines(s@.skip(i + 1)));
            v
        },
    }
}

/// `str::split_whitespace`: maximal runs of non-whitespace characters.
pub open spec fn words(s: Seq<char>) -> Seq<Seq<char>>
    decreases s.len(),
{
    let t = s.skip(first_non_ws(s));
    if first_non_ws(s) < 0 || first_non_ws(s) > s.len() || t.len() == 0 {
        Seq::empty()
    } else {
        let k = first_ws(t);
        if 0 < k <= t.len() {
            seq![t.take(k)] + words(t.skip(k))
        } else {
            Seq::empty()
        }
    }
}

pub open spec fn first_ws(s: Seq<char>) -> int
    decreases s.len(),
{
    if s.len() == 0 || is_ws(s[0]) {
        0
    } else {
        1 + first_ws(s.skip(1))
    }
}

pub proof fn lemma_first_ws(s: Seq<char>)
    ensures
        0 <= first_ws(s) <= s.len(),
        forall|j: int| 0 <= j < first_ws(s) ==> !is_ws(#[trigger] s[j]),
        first_ws(s) == s.len() || is_ws(s[first_ws(s)]),
    decreases s.len(),
{
    if s.len() > 0 && !is_ws(s[0]) {
        lemma_first_ws(s.skip(1));
        assert forall|j: int| 0 <= j < first_ws(s) implies !is_ws(#[trigger] s[j]) by {
            if j > 0 {
                assert(s[j] == s.skip(1)[j - 1]);
            }
        }
    }
}

proof fn lemma_first_ws_unique(s: Seq<char>, k: int)
    requires
        0 <= k <= s.len(),
        forall|j: int| 0 <= j < k ==> !is_ws(#[trigger] s[j]),
        k == s.len() || is_ws(s[k]),
    ensures
        first_ws(s) == k,
{
    lemma_first_ws(s);
    if first_ws(s) < k {
        assert(!is_ws(s[first_ws(s)]));
    }
    if first_ws(s) > k {
        assert(!is_ws(s[k]));
    }
}

proof fn lemma_first_non_ws_unique(s: Seq<char>, k: int)
    requires
        0 <= k <= s.len(),
        forall|j: int| 0 <= j < k ==> is_ws(#[trigger] s[j]),
        k == s.len() || !is_ws(s[k]),
    ensures
        first_non_ws(s) == k,
{
    lemma_first_non_ws(s);
    if first_non_ws(s) < k {
        assert(is_ws(s[first_non_ws(s)]));
    }
    if first_non_ws(s) > k {
        assert(is_ws(s[k]));
    }
}

pub fn words_of(s: &str) -> (r: Vec<String>)
    ensures
        views(r@) == words(s@),
    decreases s@.len(),
{
    let n = s.unicode_len();
    let mut a: usize = 0;
    while a < n && is_ws_char(s.get_char(a))
        invariant
            n == s@.len(),
            a <= n,
            forall|j: int| 0 <= j < a ==> is_ws(#[trigger] s@[j]),
        decreases n - a,
    {
        a = a + 1;
    }
    proof {
        lemma_first_non_ws_unique(s@, a as int);
    }
    if a == n {
        let v: Vec<String> = Vec::new();
        assert(views(v@) =~= Seq::<Seq<char>>::empty());
        return v;
    }
    let mut b: usize = a;
    while b < n && !is_ws_char(s.get_char(b))
        invariant
            n == s@.len(),
            a <= b <= n,
            forall|j: int| a <= j < b ==> !is_ws(#[trigger] s@[j]),
        decreases n - b,
    {
        b = b + 1;
    }
    let ghost t = s@.skip(a as int);
    proof {
        assert forall|j: int| 0 <= j < b - a implies !is_ws(#[trigger] t[j]) by {
            assert(t[j] == s@[j + a]);
        }
        if b < n {
            assert(t[b - a] == s@[b as int]);
        }
        lemma_first_ws_unique(t, b - a);
        assert(s@[a as int] == t[0]);
    }
    let word = s.substring_char(a, b).to_owned();
    assert(word@ =~= t.take(b - a));
    let rest = s.substring_char(b, n);
    assert(rest@ =~= t.skip(b - a));
    let mut tail = words_of(rest);
    let mut v = vec![word];
    v.append(&mut tail);
    assert(views(v@) =~= seq![t.take(b - a)] + words(t.skip(b - a)));
    v
}

// ---------------------------------------------------------------------------------------------
// Lexicographic order, the order of `String`'s `Ord`
// ---------------------------------------------------------------------------------------------

/// `a < b` as strings compare: by code point, a proper prefix first. UTF-8 preserves code point
/// order, so this is the byte order `String` uses.
pub open spec fn lex_lt(a: Seq<char>, b: Seq<char>) -> bool
    decreases a.len(),
{
    if a.len() == 0 {
        b.len() > 0
    } else if b.len() == 0 {
        false
    } else if a[0] == b[0] {
        lex_lt(a.skip(1), b.skip(1))
    } else {
        (a[0] as int) < (b[0] as int)
    }
}

pub proof fn lemma_lex_irreflexive(a: Seq<char>)
    ensures
        !lex_lt(a, a),
    decreases a.len(),
{
    if a.len() > 0 {
        lemma_lex_irreflexive(a.skip(1));
    }
}

pub proof fn lemma_lex_asymmetric(a: Seq<char>, b: Seq<char>)
    ensures
        !(lex_lt(a, b) && lex_lt(b, a)),
    decreases a.len(),
{
    if a.len() > 0 && b.len() > 0 && a[0] == b[0] {
        lemma_lex_asymmetric(a.skip(1), b.skip(1));
    }
}

pub proof fn lemma_lex_total(a: Seq<char>, b: Seq<char>)
    ensures
        a != b ==> lex_lt(a, b) || lex_lt(b, a),
    decreases a.len(),
{
    if a.len() > 0 && b.len() > 0 && a[0] == b[0] {
        lemma_lex_total(a.skip(1), b.skip(1));
        if a.skip(1) == b.skip(1) {
            assert(a =~= seq![a[0]] + a.skip(1));
            assert(b =~= seq![b[0]] + b.skip(1));
        }
    }
    if a.len() > 0 && b.len() > 0 && a[0] != b[0] {
        assert((a[0] as int) != (b[0] as int));
    }
    if a.len() == 0 && b.len() == 0 {
        assert(a =~= b);
    }
}

pub proof fn lemma_lex_transitive(a: Seq<char>, b: Seq<char>, c: Seq<char>)
    requires
        lex_lt(a, b),
        lex_lt(b, c),
    ensures
        lex_lt(a, c),
    decreases a.len(),
{
    if a.len() > 0 && b.len() > 0 && c.len() > 0 && a[0] == b[0] && b[0] == c[0] {
        lemma_lex_transitive(a.skip(1), b.skip(1), c.skip(1));
    }
}

pub fn str_lt(a: &str, b: &str) -> (r: bool)
    ensures
        r == lex_lt(a@, b@),
{
    let n = a.unicode_len();
    let m = b.unicode_len();
    let mut i: usize = 0;
    assert(a@.skip(0) =~= a@);
    assert(b@.skip(0) =~= b@);
    while i < n && i < m
        invariant
            n == a@.len(),
            m == b@.len(),
            i <= n,
            i <= m,
            forall|j: int| 0 <= j < i ==> a@[j] == b@[j],
            lex_lt(a@, b@) == lex_lt(a@.skip(i as int), b@.skip(i as int)),
        decreases n - i,
    {
        let x = a.get_char(i);
        let y = b.get_char(i);
        assert(a@.skip(i as int)[0] == x && b@.skip(i as int)[0] == y);
        if x != y {
            return (x as u32) < (y as u32);
        }
        assert(a@.skip(i as int).skip(1) =~= a@.skip(i + 1));
        assert(b@.skip(i as int).skip(1) =~= b@.skip(i + 1));
        i = i + 1;
    }
    i == n && i < m
}

} // verus!

verus! {

// ---------------------------------------------------------------------------------------------
// Facts about joining and reading lines back
// ---------------------------------------------------------------------------------------------

pub proof fn lemma_contains_concat(a: Seq<char>, b: Seq<char>, c: char)
    ensures
        (a + b).contains(c) <==> a.contains(c) || b.contains(c),
{
    if (a + b).contains(c) {
        let k = choose|k: int| 0 <= k < (a + b).len() && (a + b)[k] == c;
        if k < a.len() {
            assert(a[k] == c);
        } else {
            assert(b[k - a.len()] == c);
        }
    }
    if a.contains(c) {
        let k = choose|k: int| 0 <= k < a.len() && a[k] == c;
        assert((a + b)[k] == c);
    }
    if b.contains(c) {
        let k = choose|k: int| 0 <= k < b.len() && b[k] == c;
        assert((a + b)[k + a.len()] == c);
    }
}

pub proof fn lemma_join_front(list: Seq<Seq<char>>, sep: Seq<char>)
    requires
        list.len() >= 2,
    ensures
        seq_join(list, sep) == list[0] + sep + seq_join(list.skip(1), sep),
    decreases list.len(),
{
    if list.len() == 2 {
        assert(list.drop_last() =~= seq![list[0]]);
        assert(list.skip(1) =~= seq![list[1]]);
        assert(seq_join(list.drop_last(), sep) == list[0]);
        assert(seq_join(list.skip(1), sep) == list[1]);
        assert(seq_join(list, sep) == seq_join(list.drop_last(), sep) + sep + list.last());
        assert(seq_join(list, sep) =~= list[0] + sep + seq_join(list.skip(1), sep));
    } else {
        lemma_join_front(list.drop_last(), sep);
        assert(list.drop_last().skip(1) =~= list.skip(1).drop_last());
        assert(list.skip(1).last() == list.last());
        assert(list.drop_last()[0] == list[0]);
        let t = list.skip(1);
        assert(seq_join(t, sep) == seq_join(t.drop_last(), sep) + sep + t.last());
        assert(seq_join(list, sep) == seq_join(list.drop_last(), sep) + sep + list.last());
        assert(seq_join(list, sep) =~= list[0] + sep + seq_join(list.skip(1), sep));
    }
}

/// A join of pieces free of `c`, with a separator free of `c`, is free of `c`.
pub proof fn lemma_join_free_of(list: Seq<Seq<char>>, sep: Seq<char>, c: char)
    requires
        !sep.contains(c),
        forall|i: int| 0 <= i < list.len() ==> !(#[trigger] list[i]).contains(c),
    ensures
        !seq_join(list, sep).contains(c),
    decreases list.len(),
{
    if list.len() > 1 {
        lemma_join_free_of(list.drop_last(), sep, c);
        lemma_contains_concat(seq_join(list.drop_last(), sep), sep, c);
        lemma_contains_concat(seq_join(list.drop_last(), sep) + sep, list.last(), c);
    } else if list.len() == 1 {
        assert(!list[0].contains(c));
    }
}

/// A line that holds no line break is read back as itself.
pub open spec fn unbroken(l: Seq<char>) -> bool {
    !l.contains('\n') && !l.contains('\r')
}

/// Lines joined by `\n` with a final `\n` are read back by [`lines`] one for one, each less a
/// final `\r`, when none of them holds a `\n`.
pub proof fn lemma_lines_of_joined_stripped(list: Seq<Seq<char>>)
    requires
        list.len() > 0,
        forall|i: int| 0 <= i < list.len() ==> !(#[trigger] list[i]).contains('\n'),
    ensures
        lines(seq_join(list, "\n"@) + "\n"@) == list.map_values(|l: Seq<char>| strip_cr(l)),
    decreases list.len(),
{
    reveal_strlit("\n");
    let nl: Seq<char> = "\n"@;
    assert(nl =~= seq!['\n']);
    let head = list[0];
    assert(!head.contains('\n'));
    let rest: Seq<char> = if list.len() == 1 {
        Seq::empty()
    } else {
        seq_join(list.skip(1), nl) + nl
    };
    let s = seq_join(list, nl) + nl;
    if list.len() == 1 {
        assert(s =~= head + nl + rest);
    } else {
        lemma_join_front(list, nl);
        assert(s =~= head + nl + rest);
    }
    // the first `\n` of `s` ends `head`
    assert(s[head.len() as int] == '\n');
    assert(s.contains('\n'));
    lemma_find_char(s, '\n');
    let f = find_char(s, '\n');
    if f < head.len() {
        assert(s[f] == head[f]);
    }
    if f > head.len() {
        assert(s[head.len() as int] != '\n');
    }
    assert(f == head.len());
    assert(s.take(f) =~= head);
    assert(s.skip(f + 1) =~= rest);
    let stripped = list.map_values(|l: Seq<char>| strip_cr(l));
    if list.len() == 1 {
        assert(lines(rest) =~= Seq::<Seq<char>>::empty());
        assert(stripped =~= seq![strip_cr(head)]);
    } else {
        let tail = list.skip(1);
        assert forall|i: int| 0 <= i < tail.len() implies !(#[trigger] tail[i]).contains('\n') by {
            assert(tail[i] == list[i + 1]);
        }
        lemma_lines_of_joined_stripped(tail);
        assert(stripped =~= seq![strip_cr(head)] + tail.map_values(|l: Seq<char>| strip_cr(l)));
    }
}

/// Lines joined by `\n` with a final `\n` are read back by [`lines`] exactly, when none of them
/// holds a line break.
pub proof fn lemma_lines_of_joined(list: Seq<Seq<char>>)
    requires
        list.len() > 0,
        forall|i: int| 0 <= i < list.len() ==> unbroken(#[trigger] list[i]),
    ensures
        lines(seq_join(list, "\n"@) + "\n"@) == list,
{
    lemma_lines_of_joined_stripped(list);
    let stripped = list.map_values(|l: Seq<char>| strip_cr(l));
    assert forall|i: int| 0 <= i < list.len() implies stripped[i] == list[i] by {
        let l = list[i];
        assert(unbroken(l));
        if l.len() > 0 {
            assert(l.last() == l[l.len() - 1]);
        }
    }
    assert(stripped =~= list);
}

// ---------------------------------------------------------------------------------------------
// Wider numbers and substrings
// ---------------------------------------------------------------------------------------------

/// What `str::parse::<u64>` accepts: an optional `+`, then one or more ASCII digits whose value
/// fits in a `u64`.
pub open spec fn parse_u64(s: Seq<char>) -> Option<u64> {
    let body = if s.len() > 0 && s[0] == '+' {
        s.skip(1)
    } else {
        s
    };
    if body.len() > 0 && all_digits(body) && digits_value(body) <= u64::MAX {
        Some(digits_value(body) as u64)
    } else {
        None
    }
}

pub fn parse_u64_str(s: &str) -> (r: Option<u64>)
    ensures
        r == parse_u64(s@),
{
    let n = s.unicode_len();
    let start: usize = if n > 0 && s.get_char(0) == '+' {
        1
    } else {
        0
    };
    let body = s.substring_char(start, n);
    assert(body@ == (if s@.len() > 0 && s@[0] == '+' {
        s@.skip(1)
    } else {
        s@
    })) by {
        if start == 0 {
            assert(s@.subrange(0, n as int) =~= s@);
        }
    }
    digits_u64(body)
}

/// Value of a non-empty string of digits that fits in a `u64`.
fn digits_u64(body: &str) -> (r: Option<u64>)
    ensures
        r == (if body@.len() > 0 && all_digits(body@) && digits_value(body@) <= u64::MAX {
            Some(digits_value(body@) as u64)
        } else {
            None::<u64>
        }),
{
    let m = body.unicode_len();
    if m == 0 {
        return None;
    }
    let mut value: u128 = 0;
    let mut i: usize = 0;
    assert(body@.take(0) =~= Seq::<char>::empty());
    while i < m
        invariant
            m == body@.len(),
            i <= m,
            forall|j: int| 0 <= j < i ==> is_digit(#[trigger] body@[j]),
            value == digits_value(body@.take(i as int)),
            value <= u64::MAX,
        decreases m - i,
    {
        let c = body.get_char(i);
        if !('0' <= c && c <= '9') {
            assert(!is_digit(body@[i as int]));
            return None;
        }
        let d = (c as u128) - ('0' as u128);
        proof {
            assert(body@.take(i + 1).drop_last() =~= body@.take(i as int));
            assert(body@.take(i + 1).last() == c);
        }
        let next = value * 10 + d;
        if next > u64::MAX as u128 {
            proof {
                if all_digits(body@) {
                    lemma_digits_value_mono(body@, i + 1);
                }
            }
            return None;
        }
        value = next;
        i = i + 1;
    }
    assert(body@.take(m as int) =~= body@);
    Some(value as u64)
}

/// `needle` occurs in `hay` at position `i`.
pub open spec fn occurs_at(hay: Seq<char>, needle: Seq<char>, i: int) -> bool {
    0 <= i && i + needle.len() <= hay.len() && hay.subrange(i, i + needle.len()) == needle
}

/// `needle` occurs somewhere in `hay`, as `str::contains` finds it.
pub open spec fn contains_seq(hay: Seq<char>, needle: Seq<char>) -> bool {
    exists|i: int| occurs_at(hay, needle, i)
}

pub fn contains_str(hay: &str, needle: &str) -> (r: bool)
    ensures
        r == contains_seq(hay@, needle@),
{
    let n = hay.unicode_len();
    let m = needle.unicode_len();
    if m > n {
        assert forall|i: int| !occurs_at(hay@, needle@, i) by {}
        return false;
    }
    if m == 0 {
        assert(hay@.subrange(0, 0) =~= needle@);
        assert(occurs_at(hay@, needle@, 0));
        return true;
    }
    let mut i: usize = 0;
    while i <= n - m
        invariant
            n == hay@.len(),
            m == needle@.len(),
            1 <= m <= n,
            i <= n - m + 1,
            forall|j: int| 0 <= j < i ==> !occurs_at(hay@, needle@, j),
        decreases n - m + 1 - i,
    {
        let part = hay.substring_char(i, i + m);
        if str_eq(part, needle) {
            assert(occurs_at(hay@, needle@, i as int));
            return true;
        }
        i = i + 1;
    }
    assert forall|j: int| !occurs_at(hay@, needle@, j) by {
        if 0 <= j && j + m <= n {
            assert(j < i);
        }
    }
    false
}

} // verus!
