use vstd::prelude::*;

use crate::errors::AsmError;
use crate::regs::Register;

verus! {

/// Unicode `White_Space`, the characters that `char::is_whitespace` accepts.
pub open spec fn is_space(c: char) -> bool {
    let u = c as u32;
    (0x09 <= u && u <= 0x0D) || u == 0x20 || u == 0x85 || u == 0xA0 || u == 0x1680 || (0x2000
        <= u && u <= 0x200A) || u == 0x2028 || u == 0x2029 || u == 0x202F || u == 0x205F || u
        == 0x3000
}

/// The index of the first `c` at or after `i`, or the length when there is none.
pub open spec fn find_from(s: Seq<char>, c: char, i: int) -> int
    decreases s.len() - i,
{
    if i < 0 || i >= s.len() {
        s.len() as int
    } else if s[i] == c {
        i
    } else {
        find_from(s, c, i + 1)
    }
}

/// The index of the last `c` before `j`, or -1 when there is none.
pub open spec fn rfind_before(s: Seq<char>, c: char, j: int) -> int
    decreases j,
{
    if j <= 0 || j > s.len() {
        -1
    } else if s[j - 1] == c {
        j - 1
    } else {
        rfind_before(s, c, j - 1)
    }
}

/// The first index at or after `i` that does not hold a space.
pub open spec fn skip_space(s: Seq<char>, i: int) -> int
    decreases s.len() - i,
{
    if 0 <= i < s.len() && is_space(s[i]) {
        skip_space(s, i + 1)
    } else {
        i
    }
}

/// The first index at or after `i` that holds a space, or the length.
pub open spec fn skip_word(s: Seq<char>, i: int) -> int
    decreases s.len() - i,
{
    if 0 <= i < s.len() && !is_space(s[i]) {
        skip_word(s, i + 1)
    } else {
        i
    }
}

/// Moves `j` back over the spaces before it, stopping at `lo`.
pub open spec fn skip_space_back(s: Seq<char>, lo: int, j: int) -> int
    decreases j - lo,
{
    if lo < j <= s.len() && is_space(s[j - 1]) {
        skip_space_back(s, lo, j - 1)
    } else {
        j
    }
}

/// `s` without its leading and trailing spaces.
pub open spec fn trim(s: Seq<char>) -> Seq<char> {
    let a = skip_space(s, 0);
    s.subrange(a, skip_space_back(s, a, s.len() as int))
}

/// A line without its comment (from the first `;`), trimmed.
pub open spec fn clean(line: Seq<char>) -> Seq<char> {
    trim(line.take(find_from(line, ';', 0)))
}

/// The whitespace-separated words of `s` from index `i` on.
pub open spec fn tokens_from(s: Seq<char>, i: int) -> Seq<Seq<char>>
    decreases s.len() - i,
{
    let a = skip_space(s, i);
    let b = skip_word(s, a);
    if a >= s.len() || b <= i || b > s.len() {
        Seq::empty()
    } else {
        seq![s.subrange(a, b)] + tokens_from(s, b)
    }
}

/// The characters of each vector.
pub open spec fn views(v: Seq<Vec<char>>) -> Seq<Seq<char>> {
    v.map_values(|t: Vec<char>| t@)
}

/// The whitespace-separated words of `s`.
pub open spec fn tokens(s: Seq<char>) -> Seq<Seq<char>> {
    tokens_from(s, 0)
}

/// `s` from index `i` on, with each two-character `\n` turned into a newline.
pub open spec fn unescape_from(s: Seq<char>, i: int) -> Seq<char>
    decreases s.len() - i,
{
    if i < 0 || i >= s.len() {
        Seq::empty()
    } else if i + 1 < s.len() && s[i] == '\\' && s[i + 1] == 'n' {
        seq!['\n'] + unescape_from(s, i + 2)
    } else {
        seq![s[i]] + unescape_from(s, i + 1)
    }
}

/// What lies strictly between the first and the last `"` of a line, with `\n`
/// escapes turned into newlines.
pub open spec fn extract(line: Seq<char>) -> Result<Seq<char>, AsmError> {
    let f = find_from(line, '"', 0);
    let l = rfind_before(line, '"', line.len() as int);
    if f < l {
        Ok(unescape_from(line.subrange(f + 1, l), 0))
    } else {
        Err(AsmError::MissingQuote)
    }
}

/// An ASCII decimal digit.
pub open spec fn is_dec_digit(c: char) -> bool {
    0x30 <= (c as u32) && (c as u32) <= 0x39
}

pub open spec fn all_dec(s: Seq<char>) -> bool {
    forall|i: int| 0 <= i < s.len() ==> is_dec_digit(#[trigger] s[i])
}

/// The value of a string of decimal digits.
pub open spec fn dec_value(s: Seq<char>) -> nat
    decreases s.len(),
{
    if s.len() == 0 {
        0
    } else {
        dec_value(s.drop_last()) * 10 + ((s.last() as u32) - 0x30) as nat
    }
}

/// A decimal literal with an optional `+`, as `u16` reads it.
pub open spec fn dec_of(s: Seq<char>) -> Result<u16, AsmError> {
    let ds = if s.len() > 0 && s[0] == '+' {
        s.skip(1)
    } else {
        s
    };
    if ds.len() == 0 || !all_dec(ds) || dec_value(ds) > 0xFFFF {
        Err(AsmError::BadNumber)
    } else {
        Ok(dec_value(ds) as u16)
    }
}

/// A digit of the hexadecimal form: `0`-`9`, then Cyrillic `А`-`Е` for 10 to 15.
pub open spec fn is_hex_digit(c: char) -> bool {
    is_dec_digit(c) || (0x410 <= (c as u32) && (c as u32) <= 0x415)
}

pub open spec fn hex_digit(c: char) -> nat {
    if is_dec_digit(c) {
        ((c as u32) - 0x30) as nat
    } else {
        ((c as u32) - 0x410 + 10) as nat
    }
}

/// Hexadecimal digits shifted into a 16-bit accumulator, most significant first.
pub open spec fn hex_acc(s: Seq<char>) -> u16
    decreases s.len(),
{
    if s.len() == 0 {
        0
    } else {
        ((hex_acc(s.drop_last()) as nat * 16 + hex_digit(s.last())) % 0x10000) as u16
    }
}

/// The first character at or after `i` that is not a hexadecimal digit.
pub open spec fn first_non_hex(ds: Seq<char>, i: int) -> Option<char>
    decreases ds.len() - i,
{
    if i < 0 || i >= ds.len() {
        None
    } else if !is_hex_digit(ds[i]) {
        Some(ds[i])
    } else {
        first_non_hex(ds, i + 1)
    }
}

pub open spec fn hex_of(ds: Seq<char>) -> Result<u16, AsmError> {
    match first_non_hex(ds, 0) {
        Some(c) => Err(AsmError::BadHexDigit(c)),
        None => Ok(hex_acc(ds)),
    }
}

/// A numeric literal: hexadecimal after `0х` (Latin zero, Cyrillic `х`), else decimal.
pub open spec fn num_of(t: Seq<char>) -> Result<u16, AsmError> {
    let s = trim(t);
    if s.len() >= 2 && s[0] == '0' && s[1] == '\u{445}' {
        hex_of(s.skip(2))
    } else {
        dec_of(s)
    }
}

/// A register token: `П` and a decimal number from 0 to 30.
pub open spec fn reg_of(t: Seq<char>) -> Result<Register, AsmError> {
    let s = trim(t);
    let ds = s.skip(1);
    if s.len() >= 2 && s[0] == '\u{41F}' && all_dec(ds) && dec_value(ds) <= 30 {
        Ok(Register::P(dec_value(ds) as u8))
    } else {
        Err(AsmError::BadRegister)
    }
}

/// The characters of `s` in order.
pub(crate) fn chars_of(s: &str) -> (r: Vec<char>)
    ensures
        r@ == s@,
{
    broadcast use vstd::string::axiom_spec_iter;

    let mut out: Vec<char> = Vec::new();
    for c in it: s.chars()
        invariant
            it.seq() == s@,
            out@ == it.seq().take(it.index() as int),
    {
        out.push(c);
        assert(out@ =~= it.seq().take(it.index() + 1));
    }
    assert(s@.take(s@.len() as int) =~= s@);
    out
}

/// Relies on `String: FromIterator<&char>`: the string of the given characters.
#[verifier::external_body]
pub(crate) fn string_of(v: &[char]) -> (r: String)
    ensures
        r@ == v@,
{
    v.iter().collect()
}

pub(crate) fn space(c: char) -> (r: bool)
    ensures
        r == is_space(c),
{
    let u = c as u32;
    (0x09 <= u && u <= 0x0D) || u == 0x20 || u == 0x85 || u == 0xA0 || u == 0x1680 || (0x2000
        <= u && u <= 0x200A) || u == 0x2028 || u == 0x2029 || u == 0x202F || u == 0x205F || u
        == 0x3000
}

pub(crate) fn find_char(s: &[char], c: char, from: usize) -> (r: usize)
    requires
        from <= s@.len(),
    ensures
        r == find_from(s@, c, from as int),
        from <= r <= s@.len(),
{
    let mut i: usize = from;
    while i < s.len()
        invariant
            from <= i <= s@.len(),
            find_from(s@, c, i as int) == find_from(s@, c, from as int),
        decreases s@.len() - i,
    {
        if s[i] == c {
            return i;
        }
        i = i + 1;
    }
    i
}

pub(crate) fn rfind_char(s: &[char], c: char) -> (r: Option<usize>)
    ensures
        match r {
            Some(k) => k == rfind_before(s@, c, s@.len() as int) && k < s@.len(),
            None => rfind_before(s@, c, s@.len() as int) == -1,
        },
{
    let mut j: usize = s.len();
    while j > 0
        invariant
            j <= s@.len(),
            rfind_before(s@, c, j as int) == rfind_before(s@, c, s@.len() as int),
        decreases j,
    {
        if s[j - 1] == c {
            return Some(j - 1);
        }
        j = j - 1;
    }
    None
}

pub(crate) fn skip_spaces(s: &[char], i: usize) -> (r: usize)
    requires
        i <= s@.len(),
    ensures
        r == skip_space(s@, i as int),
        i <= r <= s@.len(),
        r == s@.len() || !is_space(s@[r as int]),
{
    let mut k = i;
    while k < s.len() && space(s[k])
        invariant
            i <= k <= s@.len(),
            skip_space(s@, k as int) == skip_space(s@, i as int),
        decreases s@.len() - k,
    {
        k = k + 1;
    }
    k
}

fn skip_word_chars(s: &[char], i: usize) -> (r: usize)
    requires
        i <= s@.len(),
    ensures
        r == skip_word(s@, i as int),
        i <= r <= s@.len(),
        r == s@.len() || is_space(s@[r as int]),
{
    let mut k = i;
    while k < s.len() && !space(s[k])
        invariant
            i <= k <= s@.len(),
            skip_word(s@, k as int) == skip_word(s@, i as int),
        decreases s@.len() - k,
    {
        k = k + 1;
    }
    k
}

fn skip_spaces_back(s: &[char], lo: usize, j: usize) -> (r: usize)
    requires
        lo <= j <= s@.len(),
    ensures
        r == skip_space_back(s@, lo as int, j as int),
        lo <= r <= j,
{
    let mut k = j;
    while k > lo && space(s[k - 1])
        invariant
            lo <= k <= j,
            j <= s@.len(),
            skip_space_back(s@, lo as int, k as int) == skip_space_back(s@, lo as int, j as int),
        decreases k,
    {
        k = k - 1;
    }
    k
}

pub(crate) fn slice_chars(s: &[char], a: usize, b: usize) -> (r: Vec<char>)
    requires
        a <= b <= s@.len(),
    ensures
        r@ == s@.subrange(a as int, b as int),
{
    let mut out: Vec<char> = Vec::new();
    let mut i = a;
    while i < b
        invariant
            a <= i <= b,
            b <= s@.len(),
            out@ == s@.subrange(a as int, i as int),
        decreases b - i,
    {
        out.push(s[i]);
        i = i + 1;
        assert(out@ =~= s@.subrange(a as int, i as int));
    }
    out
}

pub(crate) fn trim_chars(s: &[char]) -> (r: Vec<char>)
    ensures
        r@ == trim(s@),
{
    let a = skip_spaces(s, 0);
    let b = skip_spaces_back(s, a, s.len());
    slice_chars(s, a, b)
}

pub(crate) fn clean_chars(line: &[char]) -> (r: Vec<char>)
    ensures
        r@ == clean(line@),
{
    let k = find_char(line, ';', 0);
    let code = slice_chars(line, 0, k);
    assert(code@ =~= line@.take(k as int));
    trim_chars(code.as_slice())
}

pub(crate) fn split_tokens(s: &[char]) -> (r: Vec<Vec<char>>)
    ensures
        views(r@) == tokens(s@),
{
    let mut out: Vec<Vec<char>> = Vec::new();
    let mut i: usize = 0;
    loop
        invariant
            i <= s@.len(),
            views(out@) + tokens_from(s@, i as int) == tokens(s@),
        decreases s@.len() - i,
    {
        let a = skip_spaces(s, i);
        if a >= s.len() {
            assert(tokens_from(s@, i as int) =~= Seq::<Seq<char>>::empty());
            assert(views(out@) + Seq::<Seq<char>>::empty() =~= views(out@));
            return out;
        }
        let b = skip_word_chars(s, a);
        let t = slice_chars(s, a, b);
        assert(tokens_from(s@, i as int) == seq![s@.subrange(a as int, b as int)] + tokens_from(
            s@,
            b as int,
        ));
        let ghost before = views(out@);
        out.push(t);
        assert(views(out@) =~= before.push(s@.subrange(a as int, b as int)));
        assert(before + tokens_from(s@, i as int) =~= views(out@) + tokens_from(s@, b as int));
        i = b;
    }
}

fn unescape(s: &[char]) -> (r: Vec<char>)
    ensures
        r@ == unescape_from(s@, 0),
{
    let mut out: Vec<char> = Vec::new();
    let mut i: usize = 0;
    while i < s.len()
        invariant
            i <= s@.len(),
            out@ + unescape_from(s@, i as int) == unescape_from(s@, 0),
        decreases s@.len() - i,
    {
        let ghost before = out@;
        if i + 1 < s.len() && s[i] == '\\' && s[i + 1] == 'n' {
            out.push('\n');
            assert(before + unescape_from(s@, i as int) =~= out@ + unescape_from(s@, i + 2));
            i = i + 2;
        } else {
            out.push(s[i]);
            assert(before + unescape_from(s@, i as int) =~= out@ + unescape_from(s@, i + 1));
            i = i + 1;
        }
    }
    assert(out@ + unescape_from(s@, i as int) =~= out@);
    out
}

pub(crate) fn extract_chars(line: &[char]) -> (r: Result<Vec<char>, AsmError>)
    ensures
        match r {
            Ok(t) => extract(line@) == Ok::<Seq<char>, AsmError>(t@),
            Err(e) => extract(line@) == Err::<Seq<char>, AsmError>(e),
        },
{
    let f = find_char(line, '"', 0);
    match rfind_char(line, '"') {
        Some(l) => {
            if f < l {
                let inner = slice_chars(line, f + 1, l);
                Ok(unescape(inner.as_slice()))
            } else {
                Err(AsmError::MissingQuote)
            }
        },
        None => Err(AsmError::MissingQuote),
    }
}

/// `x`, or 65536 when it is larger: enough to tell whether a value fits in `u16`.
pub open spec fn cap(x: nat) -> nat {
    if x > 0x10000 {
        0x10000
    } else {
        x
    }
}

/// Whether `s` holds only decimal digits from `from` on, and their value, capped.
fn dec_digits(s: &[char], from: usize) -> (r: (bool, u32))
    requires
        from <= s@.len(),
    ensures
        r.0 == all_dec(s@.skip(from as int)),
        r.0 ==> r.1 == cap(dec_value(s@.skip(from as int))),
{
    let mut v: u32 = 0;
    let mut i = from;
    assert(s@.subrange(from as int, from as int) =~= Seq::<char>::empty());
    while i < s.len()
        invariant
            from <= i <= s@.len(),
            forall|k: int| from <= k < i ==> is_dec_digit(#[trigger] s@[k]),
            v == cap(dec_value(s@.subrange(from as int, i as int))),
        decreases s@.len() - i,
    {
        let u = s[i] as u32;
        if u < 0x30 || u > 0x39 {
            assert(!is_dec_digit(s@.skip(from as int)[i - from]));
            return (false, 0);
        }
        let ghost prev = s@.subrange(from as int, i as int);
        let w = v * 10 + (u - 0x30);
        v = if w > 0x10000 {
            0x10000
        } else {
            w
        };
        i = i + 1;
        assert(s@.subrange(from as int, i as int).drop_last() =~= prev);
    }
    assert(s@.subrange(from as int, i as int) =~= s@.skip(from as int));
    (true, v)
}

/// The hexadecimal digits of `s` from `from` on.
fn hex_digits(s: &[char], from: usize) -> (r: Result<u16, AsmError>)
    requires
        from <= s@.len(),
    ensures
        r == hex_of(s@.skip(from as int)),
{
    let mut acc: u16 = 0;
    let mut i = from;
    assert(s@.subrange(from as int, from as int) =~= Seq::<char>::empty());
    while i < s.len()
        invariant
            from <= i <= s@.len(),
            first_non_hex(s@.skip(from as int), i - from) == first_non_hex(s@.skip(from as int), 0),
            acc == hex_acc(s@.subrange(from as int, i as int)),
        decreases s@.len() - i,
    {
        let u = s[i] as u32;
        let d: u32;
        if 0x30 <= u && u <= 0x39 {
            d = u - 0x30;
        } else if 0x410 <= u && u <= 0x415 {
            d = u - 0x410 + 10;
        } else {
            assert(s@.skip(from as int)[i - from] == s@[i as int]);
            return Err(AsmError::BadHexDigit(s[i]));
        }
        assert(s@.skip(from as int)[i - from] == s@[i as int]);
        let ghost prev = s@.subrange(from as int, i as int);
        acc = ((acc as u32 * 16 + d) % 0x10000) as u16;
        i = i + 1;
        assert(s@.subrange(from as int, i as int).drop_last() =~= prev);
    }
    assert(s@.subrange(from as int, i as int) =~= s@.skip(from as int));
    Ok(acc)
}

pub(crate) fn num_chars(t: &[char]) -> (r: Result<u16, AsmError>)
    ensures
        r == num_of(t@),
{
    let s = trim_chars(t);
    if s.len() >= 2 && s[0] == '0' && s[1] == '\u{445}' {
        hex_digits(s.as_slice(), 2)
    } else {
        let from: usize = if s.len() > 0 && s[0] == '+' {
            1
        } else {
            0
        };
        assert(s@.skip(0) =~= s@);
        if from >= s.len() {
            return Err(AsmError::BadNumber);
        }
        let (ok, v) = dec_digits(s.as_slice(), from);
        if !ok || v > 0xFFFF {
            Err(AsmError::BadNumber)
        } else {
            Ok(v as u16)
        }
    }
}

pub(crate) fn reg_chars(t: &[char]) -> (r: Result<Register, AsmError>)
    ensures
        r == reg_of(t@),
{
    let s = trim_chars(t);
    if s.len() >= 2 && s[0] == '\u{41F}' {
        let (ok, v) = dec_digits(s.as_slice(), 1);
        if ok && v <= 30 {
            return Ok(Register::P(v as u8));
        }
    }
    Err(AsmError::BadRegister)
}

/// Reads a numeric literal: decimal, or hexadecimal after `0х` with the digits
/// `0`-`9` and `А`-`Е`.
pub fn parse_cyrillic_nums(s: &str) -> (r: Result<u16, AsmError>)
    ensures
        r == num_of(s@),
{
    let v = chars_of(s);
    num_chars(v.as_slice())
}

/// Reads a register token such as `П7`.
pub fn parse_regs(s: &str) -> (r: Result<Register, AsmError>)
    ensures
        r == reg_of(s@),
        r is Ok ==> r->Ok_0.wf(),
{
    let v = chars_of(s);
    reg_chars(v.as_slice())
}

/// Drops the comment of a line and the spaces around what is left.
pub fn clean_line(line: &str) -> (r: String)
    ensures
        r@ == clean(line@),
{
    let v = chars_of(line);
    let c = clean_chars(v.as_slice());
    string_of(c.as_slice())
}

/// The text between the first and the last `"` of a line, with `\n` escapes
/// turned into newlines.
pub fn extract_string(line: &str) -> (r: Result<String, AsmError>)
    ensures
        match r {
            Ok(t) => extract(line@) == Ok::<Seq<char>, AsmError>(t@),
            Err(e) => extract(line@) == Err::<Seq<char>, AsmError>(e),
        },
{
    let v = chars_of(line);
    match extract_chars(v.as_slice()) {
        Ok(t) => Ok(string_of(t.as_slice())),
        Err(e) => Err(e),
    }
}

} // verus!
