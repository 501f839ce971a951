use vstd::prelude::*;
use vstd::string::StrSliceExecFns;

use crate::error::FwError;

verus! {

/// One region of the layout: the device holding it, the byte offset at
/// which it begins, and its size in bytes.
#[derive(Debug, PartialEq)]
pub struct ConfigLine {
    pub devname: String,
    pub start: usize,
    pub size: usize,
}

/// The layout of the environment store: one mandatory region and, when the
/// store is redundant, a backup region.
#[derive(Debug, PartialEq)]
pub struct Config {
    pub line1: ConfigLine,
    pub line2: Option<ConfigLine>,
}

/// Whitespace that separates the tokens of a descriptor line.
pub open spec fn spec_is_ws(c: char) -> bool {
    c == ' ' || c == '\t'
}

pub open spec fn spec_is_hex_digit(c: char) -> bool {
    ||| 48 <= c as u32 && c as u32 <= 57  // '0' ..= '9'
    ||| 97 <= c as u32 && c as u32 <= 102  // 'a' ..= 'f'
    ||| 65 <= c as u32 && c as u32 <= 70  // 'A' ..= 'F'
}

pub open spec fn spec_hex_digit_val(c: char) -> nat {
    if 48 <= c as u32 && c as u32 <= 57 {
        (c as u32 - 48) as nat
    } else if 97 <= c as u32 && c as u32 <= 102 {
        (c as u32 - 87) as nat
    } else {
        (c as u32 - 55) as nat
    }
}

/// Index of the first occurrence of `c` at or after `from`, or the length of
/// `s` when there is none.
pub open spec fn spec_find_char(s: Seq<char>, from: int, c: char) -> int
    decreases s.len() - from,
{
    if from < 0 || from >= s.len() {
        s.len() as int
    } else if s[from] == c {
        from
    } else {
        spec_find_char(s, from + 1, c)
    }
}

/// Index of the first whitespace character at or after `from`, or the length.
pub open spec fn spec_find_ws(s: Seq<char>, from: int) -> int
    decreases s.len() - from,
{
    if from < 0 || from >= s.len() {
        s.len() as int
    } else if spec_is_ws(s[from]) {
        from
    } else {
        spec_find_ws(s, from + 1)
    }
}

/// Index of the first non-whitespace character at or after `from`, or the length.
pub open spec fn spec_find_non_ws(s: Seq<char>, from: int) -> int
    decreases s.len() - from,
{
    if from < 0 || from >= s.len() {
        s.len() as int
    } else if !spec_is_ws(s[from]) {
        from
    } else {
        spec_find_non_ws(s, from + 1)
    }
}

pub proof fn lemma_find_char_props(s: Seq<char>, from: int, c: char)
    requires
        0 <= from <= s.len(),
    ensures
        from <= spec_find_char(s, from, c) <= s.len(),
    decreases s.len() - from,
{
    if from < s.len() && s[from] != c {
        lemma_find_char_props(s, from + 1, c);
    }
}

/// The value of a string of hex digits, most significant first.
pub open spec fn spec_hex_val(s: Seq<char>) -> nat
    decreases s.len(),
{
    if s.len() == 0 {
        0
    } else {
        spec_hex_val(s.drop_last()) * 16 + spec_hex_digit_val(s.last())
    }
}

pub open spec fn spec_all_hex(s: Seq<char>) -> bool {
    forall|i: int| 0 <= i < s.len() ==> spec_is_hex_digit(s[i])
}

/// A numeric token parses when it is `0x` followed by one or more hex
/// digits; the result is its value, unbounded.
pub open spec fn spec_parse_hex_token(t: Seq<char>) -> Option<nat> {
    if t.len() >= 3 && t[0] == '0' && t[1] == 'x' && spec_all_hex(t.skip(2)) {
        Some(spec_hex_val(t.skip(2)))
    } else {
        None
    }
}

/// A parse failure of one descriptor line, as a mathematical value: the
/// faulting field, with the offending token — or the whole line, when the
/// token is missing altogether.
pub enum LineFault {
    /// No device token; carries the line.
    Devname(Seq<char>),
    /// The offset token is missing (the line) or malformed (the token).
    Start(Seq<char>),
    /// The size token is missing (the line) or malformed (the token).
    Size(Seq<char>),
    /// A value does not fit in `usize`; carries the token.
    Int(Seq<char>),
}

/// A layout-source failure, as a mathematical value.
pub enum ConfigFault {
    /// The qualifying lines number neither one nor two; carries the count.
    Count(usize),
    /// A descriptor line does not parse.
    Line(LineFault),
}

/// Whether an error value reports exactly the given line fault, offending
/// text included.
pub open spec fn spec_line_err_matches(e: FwError, f: LineFault) -> bool {
    match (e, f) {
        (FwError::ParseDevname(s), LineFault::Devname(t)) => s@ == t,
        (FwError::ParseStart(s), LineFault::Start(t)) => s@ == t,
        (FwError::ParseSize(s), LineFault::Size(t)) => s@ == t,
        (FwError::ParseInt(s), LineFault::Int(t)) => s@ == t,
        _ => false,
    }
}

/// Whether an error value reports exactly the given layout fault.
pub open spec fn spec_err_matches(e: FwError, f: ConfigFault) -> bool {
    match f {
        ConfigFault::Count(n) => e == FwError::WrongDevNum(n),
        ConfigFault::Line(lf) => spec_line_err_matches(e, lf),
    }
}

/// A descriptor line parses as `<device> 0x<offset> 0x<size>`: three
/// whitespace-separated tokens, of which the first is the device name and
/// the other two are hex values that must fit in `usize`. Anything after
/// the third token is ignored. Line-shape faults are reported before
/// numeric overflow, as token order has it.
pub open spec fn spec_parse_line(l: Seq<char>) -> Result<(Seq<char>, nat, nat), LineFault> {
    let a = spec_find_non_ws(l, 0);
    if a >= l.len() {
        Err(LineFault::Devname(l))
    } else {
        let b = spec_find_ws(l, a);
        let dev = l.subrange(a, b);
        let c0 = spec_find_non_ws(l, b);
        if c0 >= l.len() {
            Err(LineFault::Start(l))
        } else {
            let c1 = spec_find_ws(l, c0);
            let t2 = l.subrange(c0, c1);
            match spec_parse_hex_token(t2) {
                None => Err(LineFault::Start(t2)),
                Some(v) => {
                    let d0 = spec_find_non_ws(l, c1);
                    if d0 >= l.len() {
                        Err(LineFault::Size(l))
                    } else {
                        let d1 = spec_find_ws(l, d0);
                        let t3 = l.subrange(d0, d1);
                        match spec_parse_hex_token(t3) {
                            None => Err(LineFault::Size(t3)),
                            Some(w) => {
                                if v > usize::MAX as nat {
                                    Err(LineFault::Int(t2))
                                } else if w > usize::MAX as nat {
                                    Err(LineFault::Int(t3))
                                } else {
                                    Ok((dev, v, w))
                                }
                            },
                        }
                    }
                },
            }
        }
    }
}

/// A line as the source's line iteration yields it: one trailing carriage
/// return, left by a `\r\n` ending, is removed.
pub open spec fn spec_strip_cr(l: Seq<char>) -> Seq<char> {
    if l.len() > 0 && l.last() == '\r' {
        l.drop_last()
    } else {
        l
    }
}

/// A line takes part in the layout when it is non-empty and is not a comment.
pub open spec fn spec_qualifies(l: Seq<char>) -> bool {
    l.len() > 0 && l[0] != '#'
}

/// The qualifying lines of the source text at or after `from`: the text is
/// split at `\n`, a trailing `\r` is removed from each piece, and empty
/// pieces and comments are discarded.
pub open spec fn spec_qual_lines(s: Seq<char>, from: int) -> Seq<Seq<char>>
    decreases s.len() - from,
    via spec_qual_lines_decreases
{
    if from < 0 || from >= s.len() {
        Seq::empty()
    } else {
        let e = spec_find_char(s, from, '\n');
        let l = spec_strip_cr(s.subrange(from, e));
        let this = if spec_qualifies(l) {
            seq![l]
        } else {
            Seq::empty()
        };
        let rest = if e >= s.len() {
            Seq::empty()
        } else {
            spec_qual_lines(s, e + 1)
        };
        this + rest
    }
}

#[via_fn]
proof fn spec_qual_lines_decreases(s: Seq<char>, from: int) {
    if 0 <= from < s.len() {
        lemma_find_char_props(s, from, '\n');
    }
}

/// What a layout source denotes: its qualifying lines must number one or
/// two — counted before any are consumed — and each must be a valid
/// descriptor; the first is the primary region and the second, if present,
/// the backup.
pub open spec fn spec_from_text(s: Seq<char>) -> Result<
    ((Seq<char>, nat, nat), Option<(Seq<char>, nat, nat)>),
    ConfigFault,
> {
    let q = spec_qual_lines(s, 0);
    if q.len() == 0 || q.len() > 2 {
        Err(ConfigFault::Count(q.len() as usize))
    } else {
        match spec_parse_line(q[0]) {
            Err(f) => Err(ConfigFault::Line(f)),
            Ok(m1) => {
                if q.len() == 1 {
                    Ok((m1, None))
                } else {
                    match spec_parse_line(q[1]) {
                        Err(f) => Err(ConfigFault::Line(f)),
                        Ok(m2) => Ok((m1, Some(m2))),
                    }
                }
            },
        }
    }
}

impl ConfigLine {
    /// The fields as mathematical values: device name, offset, size.
    pub open spec fn model(self) -> (Seq<char>, nat, nat) {
        (self.devname@, self.start as nat, self.size as nat)
    }
}

impl Config {
    /// The two descriptors as mathematical values.
    pub open spec fn model(self) -> ((Seq<char>, nat, nat), Option<(Seq<char>, nat, nat)>) {
        (
            self.line1.model(),
            match self.line2 {
                Some(l) => Some(l.model()),
                None => None,
            },
        )
    }

    /// Whether a backup region is configured.
    pub fn is_redundant(&self) -> (r: bool)
        ensures
            r == self.line2 is Some,
    {
        self.line2.is_some()
    }

    /// Parse a layout from the contents of a configuration source.
    pub fn from_text(text: &str) -> (r: Result<Config, FwError>)
        ensures
            match (r, spec_from_text(text@)) {
                (Ok(c), Ok(m)) => c.model() == m,
                (Err(e), Err(f)) => spec_err_matches(e, f),
                _ => false,
            },
    {
        let lines = qualifying_lines(text);
        proof {
            assert(lines.deep_view().len() == lines@.len());
        }
        if lines.len() == 0 || lines.len() > 2 {
            return Err(FwError::WrongDevNum(lines.len()));
        }
        proof {
            assert(lines.deep_view()[0] == lines@[0]@);
        }
        let l1 = match parse_line(lines[0].as_str()) {
            Ok(l) => l,
            Err(e) => {
                return Err(e);
            },
        };
        if lines.len() == 1 {
            return Ok(Config { line1: l1, line2: None });
        }
        proof {
            assert(lines.deep_view()[1] == lines@[1]@);
        }
        let l2 = match parse_line(lines[1].as_str()) {
            Ok(l) => l,
            Err(e) => {
                return Err(e);
            },
        };
        Ok(Config { line1: l1, line2: Some(l2) })
    }
}

/// Index of the first occurrence of `c` in `s` at or after `from`, or the
/// length of `s` when there is none.
fn find_char(s: &str, from: usize, c: char) -> (r: usize)
    requires
        from <= s@.len(),
    ensures
        r == spec_find_char(s@, from as int, c),
        from <= r <= s@.len(),
{
    let len = s.unicode_len();
    let mut j = from;
    while j < len
        invariant
            from <= j <= len,
            len == s@.len(),
            spec_find_char(s@, from as int, c) == spec_find_char(s@, j as int, c),
        decreases len - j,
    {
        if s.get_char(j) == c {
            return j;
        }
        j = j + 1;
    }
    j
}

/// Index of the first whitespace in `s` at or after `from`, or the length.
fn find_ws(s: &str, from: usize) -> (r: usize)
    requires
        from <= s@.len(),
    ensures
        r == spec_find_ws(s@, from as int),
        from <= r <= s@.len(),
{
    let len = s.unicode_len();
    let mut j = from;
    while j < len
        invariant
            from <= j <= len,
            len == s@.len(),
            spec_find_ws(s@, from as int) == spec_find_ws(s@, j as int),
        decreases len - j,
    {
        let c = s.get_char(j);
        if c == ' ' || c == '\t' {
            return j;
        }
        j = j + 1;
    }
    j
}

/// Index of the first non-whitespace in `s` at or after `from`, or the length.
fn find_non_ws(s: &str, from: usize) -> (r: usize)
    requires
        from <= s@.len(),
    ensures
        r == spec_find_non_ws(s@, from as int),
        from <= r <= s@.len(),
{
    let len = s.unicode_len();
    let mut j = from;
    while j < len
        invariant
            from <= j <= len,
            len == s@.len(),
            spec_find_non_ws(s@, from as int) == spec_find_non_ws(s@, j as int),
        decreases len - j,
    {
        let c = s.get_char(j);
        if !(c == ' ' || c == '\t') {
            return j;
        }
        j = j + 1;
    }
    j
}

/// The qualifying lines of the source, in order.
fn qualifying_lines(text: &str) -> (r: Vec<String>)
    ensures
        r.deep_view() == spec_qual_lines(text@, 0),
{
    let len = text.unicode_len();
    let mut out: Vec<String> = Vec::new();
    let mut pos: usize = 0;
    proof {
        assert(out.deep_view() + spec_qual_lines(text@, 0) =~= spec_qual_lines(text@, 0));
    }
    while pos < len
        invariant
            pos <= len,
            len == text@.len(),
            out.deep_view() + spec_qual_lines(text@, pos as int) == spec_qual_lines(text@, 0),
        decreases len - pos,
    {
        let e = find_char(text, pos, '\n');
        let ghost raw = text@.subrange(pos as int, e as int);
        let ghost l = spec_strip_cr(raw);
        let mut end = e;
        if e > pos && text.get_char(e - 1) == '\r' {
            end = e - 1;
        }
        proof {
            assert(text@.subrange(pos as int, end as int) =~= l);
        }
        let ghost prev = out.deep_view();
        if end > pos && text.get_char(pos) != '#' {
            let line = text.substring_char(pos, end).to_owned();
            out.push(line);
            proof {
                assert(out.deep_view() =~= prev + seq![l]);
            }
        } else {
            proof {
                assert(!spec_qualifies(l));
            }
        }
        proof {
            assert(spec_qual_lines(text@, pos as int) == (if spec_qualifies(l) {
                seq![l]
            } else {
                Seq::<Seq<char>>::empty()
            }) + (if e >= len {
                Seq::<Seq<char>>::empty()
            } else {
                spec_qual_lines(text@, e + 1)
            }));
        }
        if e < len {
            pos = e + 1;
            proof {
                assert(out.deep_view() + spec_qual_lines(text@, pos as int) =~= spec_qual_lines(
                    text@,
                    0,
                ));
            }
        } else {
            pos = len;
            proof {
                assert(spec_qual_lines(text@, pos as int) =~= Seq::<Seq<char>>::empty());
                assert(out.deep_view() + spec_qual_lines(text@, pos as int) =~= spec_qual_lines(
                    text@,
                    0,
                ));
            }
        }
    }
    proof {
        assert(spec_qual_lines(text@, pos as int) =~= Seq::<Seq<char>>::empty());
        assert(out.deep_view() =~= spec_qual_lines(text@, 0));
    }
    out
}

/// Outcome of reading one numeric token.
enum HexParse {
    /// The token is `0x<hex>` and its value fits in `usize`.
    Value(usize),
    /// The token is not of the form `0x<hex>`.
    BadShape,
    /// The value does not fit in `usize`.
    TooBig,
}

/// The value of a hex string never shrinks as more digits follow.
proof fn lemma_hex_val_monotonic(s: Seq<char>, i: int)
    requires
        0 <= i <= s.len(),
    ensures
        spec_hex_val(s.subrange(0, i)) <= spec_hex_val(s),
    decreases s.len() - i,
{
    if i == s.len() {
        assert(s.subrange(0, i) =~= s);
    } else {
        assert(s.subrange(0, i + 1).drop_last() =~= s.subrange(0, i));
        assert(spec_hex_val(s.subrange(0, i)) <= spec_hex_val(s.subrange(0, i + 1)));
        lemma_hex_val_monotonic(s, i + 1);
    }
}

/// Read one numeric token of the form `0x<hex>`.
fn parse_hex_token(t: &str) -> (r: HexParse)
    ensures
        match spec_parse_hex_token(t@) {
            Some(v) => {
                if v > usize::MAX as nat {
                    r is TooBig
                } else {
                    r matches HexParse::Value(x) && x as nat == v
                }
            },
            None => r is BadShape,
        },
{
    let len = t.unicode_len();
    if len < 3 {
        return HexParse::BadShape;
    }
    if t.get_char(0) != '0' || t.get_char(1) != 'x' {
        return HexParse::BadShape;
    }
    let mut i: usize = 2;
    while i < len
        invariant
            2 <= i <= len,
            len == t@.len(),
            forall|k: int| 2 <= k < i ==> spec_is_hex_digit(t@[k]),
        decreases len - i,
    {
        let u = t.get_char(i) as u32;
        if !((48 <= u && u <= 57) || (97 <= u && u <= 102) || (65 <= u && u <= 70)) {
            proof {
                assert(!spec_is_hex_digit(t@[i as int]));
                assert(t@.skip(2)[i - 2] == t@[i as int]);
                assert(!spec_all_hex(t@.skip(2)));
            }
            return HexParse::BadShape;
        }
        i = i + 1;
    }
    proof {
        assert forall|k: int| 0 <= k < t@.skip(2).len() implies spec_is_hex_digit(
            t@.skip(2)[k],
        ) by {
            assert(t@.skip(2)[k] == t@[k + 2]);
        }
        assert(spec_all_hex(t@.skip(2)));
    }
    let mut acc: usize = 0;
    let mut j: usize = 2;
    proof {
        assert(t@.subrange(2, 2) =~= Seq::<char>::empty());
    }
    while j < len
        invariant
            2 <= j <= len,
            len == t@.len(),
            len >= 3,
            t@[0] == '0',
            t@[1] == 'x',
            spec_all_hex(t@.skip(2)),
            acc as nat == spec_hex_val(t@.subrange(2, j as int)),
        decreases len - j,
    {
        let c = t.get_char(j);
        let u = c as u32;
        proof {
            assert(t@.skip(2)[j - 2] == t@[j as int]);
            assert(spec_is_hex_digit(c));
        }
        let d: u32 = if u <= 57 {
            u - 48
        } else if u >= 97 {
            u - 87
        } else {
            u - 55
        };
        proof {
            assert(d as nat == spec_hex_digit_val(c));
            assert(t@.subrange(2, j + 1).drop_last() =~= t@.subrange(2, j as int));
            assert(t@.subrange(2, j + 1).last() == t@[j as int]);
            assert(spec_hex_val(t@.subrange(2, j + 1)) == spec_hex_val(
                t@.subrange(2, j as int),
            ) * 16 + spec_hex_digit_val(c));
        }
        let next = match acc.checked_mul(16) {
            Some(m) => m.checked_add(d as usize),
            None => None,
        };
        match next {
            Some(x) => {
                acc = x;
            },
            None => {
                proof {
                    assert(spec_hex_val(t@.subrange(2, j + 1)) > usize::MAX as nat);
                    assert(t@.skip(2).subrange(0, j + 1 - 2) =~= t@.subrange(2, j + 1));
                    lemma_hex_val_monotonic(t@.skip(2), j + 1 - 2);
                    assert(spec_hex_val(t@.skip(2)) > usize::MAX as nat);
                }
                return HexParse::TooBig;
            },
        }
        j = j + 1;
    }
    proof {
        assert(t@.subrange(2, len as int) =~= t@.skip(2));
    }
    HexParse::Value(acc)
}

/// Parse one descriptor line.
fn parse_line(line: &str) -> (r: Result<ConfigLine, FwError>)
    ensures
        match (r, spec_parse_line(line@)) {
            (Ok(cl), Ok(m)) => cl.model() == m,
            (Err(e), Err(f)) => spec_line_err_matches(e, f),
            _ => false,
        },
{
    let len = line.unicode_len();
    let a = find_non_ws(line, 0);
    if a >= len {
        return Err(FwError::ParseDevname(line.to_owned()));
    }
    let b = find_ws(line, a);
    let dev = line.substring_char(a, b).to_owned();
    let c0 = find_non_ws(line, b);
    if c0 >= len {
        return Err(FwError::ParseStart(line.to_owned()));
    }
    let c1 = find_ws(line, c0);
    let tok2 = line.substring_char(c0, c1);
    let h2 = parse_hex_token(tok2);
    if matches!(h2, HexParse::BadShape) {
        return Err(FwError::ParseStart(tok2.to_owned()));
    }
    let d0 = find_non_ws(line, c1);
    if d0 >= len {
        return Err(FwError::ParseSize(line.to_owned()));
    }
    let d1 = find_ws(line, d0);
    let tok3 = line.substring_char(d0, d1);
    let h3 = parse_hex_token(tok3);
    if matches!(h3, HexParse::BadShape) {
        return Err(FwError::ParseSize(tok3.to_owned()));
    }
    match (h2, h3) {
        (HexParse::Value(v), HexParse::Value(w)) => Ok(
            ConfigLine { devname: dev, start: v, size: w },
        ),
        (HexParse::Value(_), _) => Err(FwError::ParseInt(tok3.to_owned())),
        _ => Err(FwError::ParseInt(tok2.to_owned())),
    }
}

/// A source whose qualifying lines are exactly two valid descriptor lines
/// parses to a layout holding both descriptors, the first as primary and
/// the second as backup.
pub proof fn lemma_layout_round_trip(
    s: Seq<char>,
    m1: (Seq<char>, nat, nat),
    m2: (Seq<char>, nat, nat),
)
    requires
        spec_qual_lines(s, 0).len() == 2,
        spec_parse_line(spec_qual_lines(s, 0)[0]) == Ok::<(Seq<char>, nat, nat), LineFault>(m1),
        spec_parse_line(spec_qual_lines(s, 0)[1]) == Ok::<(Seq<char>, nat, nat), LineFault>(m2),
    ensures
        spec_from_text(s) == Ok::<
            ((Seq<char>, nat, nat), Option<(Seq<char>, nat, nat)>),
            ConfigFault,
        >((m1, Some(m2))),
{
}

/// A source with no qualifying line is rejected with the observed count, zero.
pub proof fn lemma_empty_layout_rejected(s: Seq<char>)
    requires
        spec_qual_lines(s, 0).len() == 0,
    ensures
        spec_from_text(s) == Err::<
            ((Seq<char>, nat, nat), Option<(Seq<char>, nat, nat)>),
            ConfigFault,
        >(ConfigFault::Count(0)),
{
}

/// A source with exactly one valid descriptor line parses to a layout
/// without a backup region.
pub proof fn lemma_single_descriptor(s: Seq<char>, m1: (Seq<char>, nat, nat))
    requires
        spec_qual_lines(s, 0).len() == 1,
        spec_parse_line(spec_qual_lines(s, 0)[0]) == Ok::<(Seq<char>, nat, nat), LineFault>(m1),
    ensures
        spec_from_text(s) == Ok::<
            ((Seq<char>, nat, nat), Option<(Seq<char>, nat, nat)>),
            ConfigFault,
        >((m1, None)),
{
}

} // verus!
