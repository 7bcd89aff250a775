//! Decimal numbers as text, and the entity names of Wikidata (`Q123`).
use vstd::prelude::*;

use crate::queries::Qid;

verus! {

/// The character of decimal digit `d`.
pub open spec fn digit_char(d: nat) -> char {
    (d + 48) as char
}

/// Whether `c` is a decimal digit.
pub open spec fn is_digit(c: char) -> bool {
    '0' <= c && c <= '9'
}

/// The decimal writing of `n`, without leading zeros.
pub open spec fn decimal(n: nat) -> Seq<char>
    decreases n,
{
    if n < 10 {
        seq![digit_char(n)]
    } else {
        decimal(n / 10).push(digit_char(n % 10))
    }
}

/// The number that a sequence of decimal digits writes.
pub open spec fn digits_value(s: Seq<char>) -> nat
    decreases s.len(),
{
    if s.len() == 0 {
        0
    } else {
        digits_value(s.drop_last()) * 10 + (s.last() as nat - 48) as nat
    }
}

/// What `str::parse::<u32>` gives: an optional `+`, then at least one decimal
/// digit, the number fitting `u32`.
pub open spec fn parse_u32(s: Seq<char>) -> Option<u32> {
    let body = unsigned_body(s);
    if body.len() > 0 && all_digits(body) && digits_value(body) <= u32::MAX {
        Some(digits_value(body) as u32)
    } else {
        None
    }
}

/// The text of a number once an optional leading `+` is dropped.
pub open spec fn unsigned_body(s: Seq<char>) -> Seq<char> {
    if s.len() > 0 && s[0] == '+' {
        s.drop_first()
    } else {
        s
    }
}

/// Whether every character is a decimal digit.
pub open spec fn all_digits(s: Seq<char>) -> bool {
    forall|i: int| 0 <= i < s.len() ==> is_digit(#[trigger] s[i])
}

/// Appends a character (`String::push`).
#[verifier::external_body]
pub(crate) fn push_char(s: &mut String, c: char)
    ensures
        final(s)@ == old(s)@.push(c),
{
    s.push(c);
}

/// The characters of a string, in order.
fn chars_of(s: &str) -> (r: Vec<char>)
    ensures
        r@ == s@,
{
    let n = s.unicode_len();
    let mut r: Vec<char> = Vec::new();
    let mut i: usize = 0;
    while i < n
        invariant
            n == s@.len(),
            i <= n,
            r@ == s@.take(i as int),
        decreases n - i,
    {
        r.push(s.get_char(i));
        proof {
            assert(s@.take(i + 1) =~= s@.take(i as int).push(s@[i as int]));
        }
        i = i + 1;
    }
    proof {
        assert(s@.take(n as int) =~= s@);
    }
    r
}

/// A text with every occurrence of `pat` replaced by `rep`, the occurrences
/// taken from left to right without overlap (`str::replace`, for a pattern
/// that is not empty).
pub open spec fn replaced(s: Seq<char>, pat: Seq<char>, rep: Seq<char>) -> Seq<char>
    decreases s.len(),
{
    if s.len() == 0 {
        Seq::empty()
    } else if 0 < pat.len() <= s.len() && s.take(pat.len() as int) == pat {
        rep + replaced(s.skip(pat.len() as int), pat, rep)
    } else {
        seq![s[0]] + replaced(s.skip(1), pat, rep)
    }
}

/// Whether `p` occurs in `t` at position `i`.
fn occurs_at(t: &Vec<char>, p: &Vec<char>, i: usize) -> (r: bool)
    requires
        i <= t@.len(),
    ensures
        r == (p@.len() <= t@.len() - i && t@.skip(i as int).take(p@.len() as int) == p@),
{
    let n = t.len();
    if p.len() > n - i {
        return false;
    }
    let mut k: usize = 0;
    while k < p.len()
        invariant
            n == t@.len(),
            i <= t@.len(),
            p@.len() <= t@.len() - i,
            i + p@.len() <= t@.len(),
            k <= p@.len(),
            forall|j: int| 0 <= j < k ==> t@[i + j] == p@[j],
        decreases p@.len() - k,
    {
        if t[i + k] != p[k] {
            proof {
                assert(t@.skip(i as int).take(p@.len() as int)[k as int] != p@[k as int]);
            }
            return false;
        }
        k = k + 1;
    }
    proof {
        assert(t@.skip(i as int).take(p@.len() as int) =~= p@);
    }
    true
}

/// Appends the characters `cs` to `out`.
fn push_chars(out: &mut String, cs: &Vec<char>)
    ensures
        final(out)@ == old(out)@ + cs@,
{
    let mut k: usize = 0;
    while k < cs.len()
        invariant
            k <= cs@.len(),
            out@ == old(out)@ + cs@.take(k as int),
        decreases cs@.len() - k,
    {
        push_char(out, cs[k]);
        proof {
            assert(cs@.take(k + 1) =~= cs@.take(k as int).push(cs@[k as int]));
        }
        k = k + 1;
    }
    proof {
        assert(cs@.take(k as int) =~= cs@);
    }
}

/// `s` with every occurrence of `pat` replaced by `rep`, from left to right.
pub fn replace_text(s: &str, pat: &str, rep: &str) -> (r: String)
    requires
        pat@.len() > 0,
    ensures
        r@ == replaced(s@, pat@, rep@),
{
    let t = chars_of(s);
    let p = chars_of(pat);
    let q = chars_of(rep);
    let mut out = String::new();
    let mut i: usize = 0;
    proof {
        assert(t@.skip(0) =~= t@);
        assert(out@ + replaced(t@, p@, q@) =~= replaced(t@, p@, q@));
    }
    while i < t.len()
        invariant
            t@ == s@,
            p@ == pat@,
            q@ == rep@,
            p@.len() > 0,
            i <= t@.len(),
            out@ + replaced(t@.skip(i as int), p@, q@) == replaced(t@, p@, q@),
        decreases t@.len() - i,
    {
        let ghost before = out@;
        let ghost rest = t@.skip(i as int);
        if occurs_at(&t, &p, i) {
            push_chars(&mut out, &q);
            proof {
                assert(rest.skip(p@.len() as int) =~= t@.skip(i + p@.len()));
                assert(before + (q@ + replaced(rest.skip(p@.len() as int), p@, q@)) =~= out@ + replaced(
                    t@.skip(i + p@.len()),
                    p@,
                    q@,
                ));
            }
            i = i + p.len();
        } else {
            push_char(&mut out, t[i]);
            proof {
                assert(rest.skip(1) =~= t@.skip(i + 1));
                assert(rest[0] == t@[i as int]);
                assert(before + (seq![rest[0]] + replaced(rest.skip(1), p@, q@)) =~= out@ + replaced(
                    t@.skip(i + 1),
                    p@,
                    q@,
                ));
            }
            i = i + 1;
        }
    }
    proof {
        assert(t@.skip(i as int) =~= Seq::<char>::empty());
        assert(out@ + Seq::<char>::empty() =~= out@);
    }
    out
}

/// Whether two texts are the same.
pub fn same_text(a: &str, b: &str) -> (r: bool)
    ensures
        r == (a@ == b@),
{
    let x = chars_of(a);
    let y = chars_of(b);
    if x.len() != y.len() {
        return false;
    }
    let mut k: usize = 0;
    while k < x.len()
        invariant
            x@ == a@,
            y@ == b@,
            x@.len() == y@.len(),
            k <= x@.len(),
            forall|j: int| 0 <= j < k ==> x@[j] == y@[j],
        decreases x@.len() - k,
    {
        if x[k] != y[k] {
            return false;
        }
        k = k + 1;
    }
    proof {
        assert(a@ =~= b@);
    }
    true
}

/// Writes `n` in decimal, as `u32`'s `Display` does.
pub fn decimal_string(n: u32) -> (r: String)
    ensures
        r@ == decimal(n as nat),
{
    // digits, least significant first
    let mut digits: Vec<char> = Vec::new();
    let mut m: u32 = n;
    loop
        invariant_except_break
            decimal(n as nat) == decimal(m as nat) + digits@.reverse(),
        ensures
            decimal(n as nat) == digits@.reverse(),
        decreases m,
    {
        let d = m % 10;
        let c = ((d as u8) + 48u8) as char;
        let ghost old_digits = digits@;
        digits.push(c);
        proof {
            assert(c == digit_char(d as nat));
            assert(digits@.reverse() =~= seq![c] + old_digits.reverse());
        }
        if m < 10 {
            proof {
                assert(decimal(m as nat) == seq![c]);
                assert(decimal(n as nat) =~= digits@.reverse());
            }
            break;
        }
        proof {
            assert(decimal(m as nat) == decimal((m / 10) as nat).push(c));
            assert(decimal(m as nat) + old_digits.reverse() =~= decimal((m / 10) as nat) + digits@.reverse());
        }
        m = m / 10;
    }
    let mut r = String::new();
    let mut k: usize = digits.len();
    while k > 0
        invariant
            k <= digits@.len(),
            r@ == digits@.reverse().take(digits@.len() - k),
        decreases k,
    {
        k = k - 1;
        push_char(&mut r, digits[k]);
        proof {
            assert(digits@.reverse().take(digits@.len() - k) =~= digits@.reverse().take(digits@.len() - k - 1).push(
                digits@[k as int],
            ));
        }
    }
    proof {
        assert(digits@.reverse().take(digits@.len() as int) =~= digits@.reverse());
    }
    r
}

/// Reads a `u32` in decimal, as `str::parse::<u32>` does.
pub fn parse_u32_chars(s: &Vec<char>, from: usize) -> (r: Option<u32>)
    requires
        from <= s@.len(),
    ensures
        r == parse_u32(s@.skip(from as int)),
{
    let ghost t = s@.skip(from as int);
    let mut start = from;
    if start < s.len() && s[start] == '+' {
        start = start + 1;
    }
    let ghost body = s@.skip(start as int);
    proof {
        assert(body =~= unsigned_body(t));
    }
    if start == s.len() {
        return None;
    }
    let mut value: u64 = 0;
    let mut i: usize = start;
    while i < s.len()
        invariant
            start <= i <= s@.len(),
            start < s@.len(),
            body == s@.skip(start as int),
            t == s@.skip(from as int),
            body == unsigned_body(t),
            forall|j: int| start <= j < i ==> is_digit(#[trigger] s@[j]),
            value == digits_value(s@.subrange(start as int, i as int)),
            value <= u32::MAX,
        decreases s@.len() - i,
    {
        let c = s[i];
        if !('0' <= c && c <= '9') {
            proof {
                assert(!is_digit(body[i - start]));
                assert(!all_digits(body));
            }
            return None;
        }
        let d = (c as u32) - 48;
        proof {
            assert(s@.subrange(start as int, i + 1).drop_last() =~= s@.subrange(start as int, i as int));
        }
        value = value * 10 + (d as u64);
        if value > 4294967295u64 {
            proof {
                if all_digits(body) {
                    lemma_digits_value_grows(body, (i + 1 - start) as int);
                    assert(s@.subrange(start as int, i + 1) =~= body.take(i + 1 - start));
                }
            }
            return None;
        }
        i = i + 1;
    }
    proof {
        assert(s@.subrange(start as int, s@.len() as int) =~= body);
    }
    Some(value as u32)
}

/// A longer run of digits is worth at least as much as its start.
proof fn lemma_digits_value_grows(s: Seq<char>, k: int)
    requires
        0 <= k <= s.len(),
        all_digits(s),
    ensures
        digits_value(s.take(k)) <= digits_value(s),
    decreases s.len() - k,
{
    if k < s.len() {
        lemma_digits_value_grows(s, k + 1);
        assert(s.take(k + 1).drop_last() =~= s.take(k));
        assert(is_digit(s[k]));
        assert(s.take(k + 1).last() == s[k]);
    } else {
        assert(s.take(k) =~= s);
    }
}

/// How a Wikidata entity is written: `Q` and its number.
pub open spec fn qid_text(n: u32) -> Seq<char> {
    seq!['Q'] + decimal(n as nat)
}

/// The prefix of an entity's address on Wikidata.
pub open spec fn entity_prefix() -> Seq<char> {
    "http://www.wikidata.org/entity/Q"@
}

/// The entity number written in `s`: after the entity address prefix when
/// `s` starts with it, else after a leading `Q`.
pub open spec fn qid_from_text(s: Seq<char>) -> Option<u32> {
    if entity_prefix().is_prefix_of(s) {
        parse_u32(s.skip(entity_prefix().len() as int))
    } else if s.len() > 0 && s[0] == 'Q' {
        parse_u32(s.skip(1))
    } else {
        None
    }
}

/// Why a text names no entity.
#[derive(Debug, Clone, Copy, PartialEq, Eq, Structural)]
pub enum QidError {
    /// It starts with neither the entity address prefix nor `Q`.
    Format,
    /// What follows the prefix is not a decimal `u32`.
    Number,
}

/// Whether a text starts with the entity address prefix or with `Q`.
pub open spec fn has_qid_prefix(s: Seq<char>) -> bool {
    entity_prefix().is_prefix_of(s) || (s.len() > 0 && s[0] == 'Q')
}

/// Two entities are the same exactly when their numbers are, and an entity
/// is written `Q` and its number.
pub proof fn lemma_qid_identity(a: Qid, b: Qid)
    ensures
        (a == b) <==> (a.0 == b.0),
        qid_text(a.0) == "Q"@ + decimal(a.0 as nat),
{
    reveal_strlit("Q");
}

impl Qid {
    /// The entity as written on Wikidata: `Q` and its number.
    pub fn to_text(&self) -> (r: String)
        ensures
            r@ == qid_text(self.0),
    {
        let mut r = String::new();
        push_char(&mut r, 'Q');
        let digits = decimal_string(self.0);
        r.append(digits.as_str());
        r
    }

    /// Reads an entity written `http://www.wikidata.org/entity/Q123` or
    /// `Q123`; the number must fit `u32`.
    pub fn parse(text: &str) -> (r: Result<Qid, QidError>)
        ensures
            match r {
                Ok(q) => qid_from_text(text@) == Some(q.0),
                Err(QidError::Format) => !has_qid_prefix(text@),
                Err(QidError::Number) => has_qid_prefix(text@) && qid_from_text(text@) is None,
            },
    {
        let chars = chars_of(text);
        let prefix = chars_of("http://www.wikidata.org/entity/Q");
        let mut is_prefix = prefix.len() <= chars.len();
        let mut k: usize = 0;
        while is_prefix && k < prefix.len()
            invariant
                prefix@ == entity_prefix(),
                k <= prefix@.len(),
                is_prefix ==> prefix@.len() <= chars@.len() && forall|j: int| 0 <= j < k ==> prefix@[j] == chars@[j],
                !is_prefix ==> !prefix@.is_prefix_of(chars@),
            decreases prefix@.len() - k + if is_prefix { 1int } else { 0int },
        {
            if prefix[k] != chars[k] {
                is_prefix = false;
            } else {
                k = k + 1;
            }
        }
        let prefixed = is_prefix || (chars.len() > 0 && chars[0] == 'Q');
        let n = if is_prefix {
            proof {
                assert(prefix@.is_prefix_of(chars@));
            }
            parse_u32_chars(&chars, prefix.len())
        } else if chars.len() > 0 && chars[0] == 'Q' {
            parse_u32_chars(&chars, 1)
        } else {
            None
        };
        match n {
            Some(v) => Ok(Qid(v)),
            None => {
                if prefixed {
                    Err(QidError::Number)
                } else {
                    Err(QidError::Format)
                }
            },
        }
    }
}

/// The writing of a number reads back as that number.
pub(crate) proof fn lemma_decimal_parses(n: nat)
    ensures
        decimal(n).len() > 0,
        all_digits(decimal(n)),
        digits_value(decimal(n)) == n,
        decimal(n)[0] != '+',
    decreases n,
{
    assert(digit_char(n % 10) as nat == n % 10 + 48);
    if n < 10 {
        assert(decimal(n).drop_last() =~= Seq::<char>::empty());
        assert(digits_value(decimal(n)) == digits_value(Seq::<char>::empty()) * 10 + (digit_char(n) as nat - 48) as nat);
    }
    if n >= 10 {
        lemma_decimal_parses(n / 10);
        let d = decimal(n);
        assert(d.drop_last() =~= decimal(n / 10));
        assert(d.last() == digit_char(n % 10));
        assert forall|i: int| 0 <= i < d.len() implies is_digit(#[trigger] d[i]) by {
            if i < d.len() - 1 {
                assert(d[i] == decimal(n / 10)[i]);
            }
        }
    }
}

/// An entity written out reads back as itself, alone or after the entity
/// address prefix.
pub proof fn lemma_qid_text_roundtrip(n: u32)
    ensures
        qid_from_text(qid_text(n)) == Some(n),
        qid_from_text(entity_prefix() + decimal(n as nat)) == Some(n),
{
    reveal_strlit("http://www.wikidata.org/entity/Q");
    lemma_decimal_parses(n as nat);
    let t = qid_text(n);
    assert(!entity_prefix().is_prefix_of(t)) by {
        assert(entity_prefix()[0] != t[0]);
    }
    assert(t.skip(1) =~= decimal(n as nat));
    assert(unsigned_body(decimal(n as nat)) == decimal(n as nat));
    let u = entity_prefix() + decimal(n as nat);
    assert(entity_prefix().is_prefix_of(u));
    assert(u.skip(entity_prefix().len() as int) =~= decimal(n as nat));
}

/// Whether a character is white space (Unicode `White_Space`, as
/// `char::is_whitespace` and `str::split_whitespace` take it).
pub open spec fn is_white(c: char) -> bool {
    ||| '\u{9}' <= c <= '\u{D}'
    ||| c == ' '
    ||| c == '\u{85}'
    ||| c == '\u{A0}'
    ||| c == '\u{1680}'
    ||| '\u{2000}' <= c <= '\u{200A}'
    ||| c == '\u{2028}'
    ||| c == '\u{2029}'
    ||| c == '\u{202F}'
    ||| c == '\u{205F}'
    ||| c == '\u{3000}'
}

/// Whether a character is white space.
fn white(c: char) -> (r: bool)
    ensures
        r == is_white(c),
{
    ('\u{9}' <= c && c <= '\u{D}') || c == ' ' || c == '\u{85}' || c == '\u{A0}' || c == '\u{1680}' || ('\u{2000}'
        <= c && c <= '\u{200A}') || c == '\u{2028}' || c == '\u{2029}' || c == '\u{202F}' || c == '\u{205F}' || c
        == '\u{3000}'
}

/// A text without the white space it starts with.
pub open spec fn skip_white(s: Seq<char>) -> Seq<char>
    decreases s.len(),
{
    if s.len() > 0 && is_white(s[0]) {
        skip_white(s.skip(1))
    } else {
        s
    }
}

/// The characters a text starts with up to its first white space.
pub open spec fn leading_word(s: Seq<char>) -> Seq<char>
    decreases s.len(),
{
    if s.len() > 0 && !is_white(s[0]) {
        seq![s[0]] + leading_word(s.skip(1))
    } else {
        Seq::empty()
    }
}

/// The first word of a text, the words being separated by white space, and
/// what follows it; none when the text is all white space.
pub open spec fn next_word(s: Seq<char>) -> Option<(Seq<char>, Seq<char>)> {
    let t = skip_white(s);
    if t.len() == 0 {
        None
    } else {
        Some((leading_word(t), t.skip(leading_word(t).len() as int)))
    }
}

/// The first word of `t` from position `from` and the position after it.
fn next_word_at(t: &Vec<char>, from: usize) -> (r: Option<(String, usize)>)
    requires
        from <= t@.len(),
    ensures
        match r {
            None => next_word(t@.skip(from as int)) is None,
            Some((w, e)) => from <= e <= t@.len() && next_word(t@.skip(from as int)) == Some(
                (w@, t@.skip(e as int)),
            ),
        },
{
    let n = t.len();
    let mut i: usize = from;
    while i < n && white(t[i])
        invariant
            n == t@.len(),
            from <= i <= n,
            skip_white(t@.skip(from as int)) == skip_white(t@.skip(i as int)),
        decreases n - i,
    {
        proof {
            assert(t@.skip(i as int).skip(1) =~= t@.skip(i + 1));
        }
        i = i + 1;
    }
    proof {
        assert(skip_white(t@.skip(i as int)) == t@.skip(i as int));
    }
    if i == n {
        proof {
            assert(t@.skip(i as int).len() == 0);
        }
        return None;
    }
    let mut w = String::new();
    let mut j: usize = i;
    proof {
        assert(t@.subrange(i as int, i as int) =~= Seq::<char>::empty());
        assert(Seq::<char>::empty() + leading_word(t@.skip(i as int)) =~= leading_word(t@.skip(i as int)));
    }
    while j < n && !white(t[j])
        invariant
            n == t@.len(),
            i <= j <= n,
            w@ == t@.subrange(i as int, j as int),
            leading_word(t@.skip(i as int)) == t@.subrange(i as int, j as int) + leading_word(t@.skip(j as int)),
        decreases n - j,
    {
        push_char(&mut w, t[j]);
        proof {
            assert(t@.skip(j as int).skip(1) =~= t@.skip(j + 1));
            assert(t@.subrange(i as int, j + 1) =~= t@.subrange(i as int, j as int).push(t@[j as int]));
            assert(t@.subrange(i as int, j as int) + (seq![t@[j as int]] + leading_word(t@.skip(j + 1)))
                =~= t@.subrange(i as int, j + 1) + leading_word(t@.skip(j + 1)));
        }
        j = j + 1;
    }
    proof {
        assert(leading_word(t@.skip(j as int)) =~= Seq::<char>::empty());
        assert(t@.subrange(i as int, j as int) + Seq::<char>::empty() =~= t@.subrange(i as int, j as int));
        assert(t@.skip(i as int).skip(j - i) =~= t@.skip(j as int));
    }
    Some((w, j))
}

/// Why a text is no point.
#[derive(Debug, Clone, Copy, PartialEq, Eq, Structural)]
pub enum PointError {
    /// It is not `Point(` and `)` around the coordinates.
    Format,
    /// There is no first coordinate.
    MissingX,
}

/// The coordinates of a point written `Point(x y)`, as words: the first
/// word between the brackets, and the second if there is one (words being
/// separated by white space, and words after the second ignored).
pub open spec fn point_words(value: Seq<char>) -> Result<(Seq<char>, Option<Seq<char>>), PointError> {
    if !(value.len() >= 7 && value.take(6) == "Point("@ && value.last() == ')') {
        Err(PointError::Format)
    } else {
        match next_word(value.subrange(6, value.len() - 1)) {
            None => Err(PointError::MissingX),
            Some((x, rest)) => Ok(
                (
                    x,
                    match next_word(rest) {
                        None => None,
                        Some((y, _)) => Some(y),
                    },
                ),
            ),
        }
    }
}

/// Splits a point written `Point(x y)` into its coordinates' words: the
/// first, and the second if there is one.
pub fn point_fields(value: &str) -> (r: Result<(String, Option<String>), PointError>)
    ensures
        match point_words(value@) {
            Ok((x, y)) => r matches Ok((rx, ry)) && rx@ == x && match y {
                None => ry is None,
                Some(yy) => ry matches Some(s) && s@ == yy,
            },
            Err(e) => r == Err::<(String, Option<String>), PointError>(e),
        },
{
    let v = chars_of(value);
    let n = v.len();
    proof {
        reveal_strlit("Point(");
    }
    if n < 7 || v[0] != 'P' || v[1] != 'o' || v[2] != 'i' || v[3] != 'n' || v[4] != 't' || v[5] != '(' || v[n - 1]
        != ')' {
        proof {
            if n >= 7 && v@.take(6) == "Point("@ && v@.last() == ')' {
                assert(v@.take(6)[0] == 'P' && v@.take(6)[1] == 'o' && v@.take(6)[2] == 'i');
                assert(v@.take(6)[3] == 'n' && v@.take(6)[4] == 't' && v@.take(6)[5] == '(');
            }
        }
        return Err(PointError::Format);
    }
    proof {
        assert(v@.take(6) =~= "Point("@);
    }
    let inner: Vec<char> = vec_slice(&v, 6, n - 1);
    match next_word_at(&inner, 0) {
        None => {
            proof {
                assert(inner@.skip(0) =~= inner@);
            }
            Err(PointError::MissingX)
        },
        Some((x, e)) => {
            proof {
                assert(inner@.skip(0) =~= inner@);
            }
            match next_word_at(&inner, e) {
                None => Ok((x, None)),
                Some((y, _)) => Ok((x, Some(y))),
            }
        },
    }
}

/// The characters of `v` from `a` to `b`.
fn vec_slice(v: &Vec<char>, a: usize, b: usize) -> (r: Vec<char>)
    requires
        a <= b <= v@.len(),
    ensures
        r@ == v@.subrange(a as int, b as int),
{
    let mut r: Vec<char> = Vec::new();
    let mut k: usize = a;
    while k < b
        invariant
            a <= k <= b,
            b <= v@.len(),
            r@ == v@.subrange(a as int, k as int),
        decreases b - k,
    {
        r.push(v[k]);
        proof {
            assert(v@.subrange(a as int, k + 1) =~= v@.subrange(a as int, k as int).push(v@[k as int]));
        }
        k = k + 1;
    }
    r
}

} // verus!
