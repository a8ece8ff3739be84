//! The on-disk form of a command: one line of text per record.
//!
//! A `Set` record reads `SET("key","value")` and a `Remove` record reads
//! `RM("key")`. Inside the quotes a backslash, a double quote and a newline are
//! written as `\\`, `\"` and `\n`, so a record never holds a raw newline and
//! the log can be cut into records at its newlines.

use vstd::prelude::*;
use vstd::utf8::*;
use crate::cli::{Action, Command, RmCmd, SetCmd};
use crate::text::string_from_utf8;

verus! {

broadcast use {encode_utf8_valid_utf8, encode_utf8_decode_utf8};

/// The byte `\n`, which ends every record.
pub const NEWLINE: u8 = 10;

/// The byte `"`.
pub const QUOTE: u8 = 34;

/// The byte `\`.
pub const BACKSLASH: u8 = 92;

/// The byte `n`, which follows a backslash in place of a newline.
pub const LETTER_N: u8 = 110;

/// The byte `,`.
pub const COMMA: u8 = 44;

/// The byte `(`.
pub const OPEN: u8 = 40;

/// The byte `)`.
pub const CLOSE: u8 = 41;

/// How one byte of a string is written between quotes.
pub open spec fn escape_byte(b: u8) -> Seq<u8> {
    if b == BACKSLASH {
        seq![BACKSLASH, BACKSLASH]
    } else if b == QUOTE {
        seq![BACKSLASH, QUOTE]
    } else if b == NEWLINE {
        seq![BACKSLASH, LETTER_N]
    } else {
        seq![b]
    }
}

/// How a string's bytes are written between quotes.
pub open spec fn escape(s: Seq<u8>) -> Seq<u8>
    decreases s.len(),
{
    if s.len() == 0 {
        Seq::empty()
    } else {
        escape(s.drop_last()) + escape_byte(s.last())
    }
}

/// A string's bytes, escaped and put between quotes.
pub open spec fn quoted(s: Seq<u8>) -> Seq<u8> {
    seq![QUOTE] + escape(s) + seq![QUOTE]
}

/// The bytes `SET(`.
pub open spec fn set_tag() -> Seq<u8> {
    seq![83u8, 69u8, 84u8, OPEN]
}

/// The bytes `RM(`.
pub open spec fn rm_tag() -> Seq<u8> {
    seq![82u8, 77u8, OPEN]
}

/// The commands that the log holds: `Get` is never written.
pub open spec fn is_record(c: Command) -> bool {
    !(c is Get)
}

/// The line (without its newline) that stands for a command in the log.
pub open spec fn record_bytes(c: Command) -> Seq<u8> {
    match c {
        Command::SetKey { key, value } => set_tag() + quoted(encode_utf8(key)) + seq![COMMA]
            + quoted(encode_utf8(value)) + seq![CLOSE],
        Command::Remove { key } => rm_tag() + quoted(encode_utf8(key)) + seq![CLOSE],
        Command::Get { .. } => Seq::empty(),
    }
}

/// The escape that stands after a backslash, for the byte it stands for.
pub open spec fn is_escape_code(b: u8) -> bool {
    b == BACKSLASH || b == QUOTE || b == LETTER_N
}

/// The byte that a backslash followed by `code` stands for.
pub open spec fn unescape_code(code: u8) -> u8 {
    if code == LETTER_N {
        NEWLINE
    } else {
        code
    }
}

/// Puts `b` in front of the text of a successful read.
pub open spec fn cons_text(b: u8, r: Option<(Seq<u8>, Seq<u8>)>) -> Option<(Seq<u8>, Seq<u8>)> {
    match r {
        Some((d, rest)) => Some((seq![b] + d, rest)),
        None => None,
    }
}

/// Puts `o` in front of the text of a successful read.
pub open spec fn prefix_text(o: Seq<u8>, r: Option<(Seq<u8>, Seq<u8>)>) -> Option<(Seq<u8>, Seq<u8>)> {
    match r {
        Some((d, rest)) => Some((o + d, rest)),
        None => None,
    }
}

/// Reads escaped text up to the closing quote: the bytes it stands for, and
/// what follows the quote. `None` where the text is not escaped as `escape`
/// writes it or no closing quote comes.
pub open spec fn unescape(s: Seq<u8>) -> Option<(Seq<u8>, Seq<u8>)>
    decreases s.len(),
{
    if s.len() == 0 {
        None
    } else if s[0] == QUOTE {
        Some((Seq::empty(), s.drop_first()))
    } else if s[0] == BACKSLASH {
        if s.len() >= 2 && is_escape_code(s[1]) {
            cons_text(unescape_code(s[1]), unescape(s.subrange(2, s.len() as int)))
        } else {
            None
        }
    } else if s[0] == NEWLINE {
        None
    } else {
        cons_text(s[0], unescape(s.drop_first()))
    }
}

/// Reads a quoted string at the start of `s`.
pub open spec fn unquote(s: Seq<u8>) -> Option<(Seq<u8>, Seq<u8>)> {
    if s.len() > 0 && s[0] == QUOTE {
        unescape(s.drop_first())
    } else {
        None
    }
}

/// Reads one record line.
pub open spec fn parse_record_bytes(l: Seq<u8>) -> Option<Command> {
    if l.len() >= 4 && l.subrange(0, 4) == set_tag() {
        match unquote(l.subrange(4, l.len() as int)) {
            Some((k, r1)) => if r1.len() >= 1 && r1[0] == COMMA {
                match unquote(r1.drop_first()) {
                    Some((v, r2)) => if r2 == seq![CLOSE] && valid_utf8(k) && valid_utf8(v) {
                        Some(Command::SetKey { key: decode_utf8(k), value: decode_utf8(v) })
                    } else {
                        None
                    },
                    None => None,
                }
            } else {
                None
            },
            None => None,
        }
    } else if l.len() >= 3 && l.subrange(0, 3) == rm_tag() {
        match unquote(l.subrange(3, l.len() as int)) {
            Some((k, r1)) => if r1 == seq![CLOSE] && valid_utf8(k) {
                Some(Command::Remove { key: decode_utf8(k) })
            } else {
                None
            },
            None => None,
        }
    } else {
        None
    }
}

proof fn lemma_escape_concat(a: Seq<u8>, b: Seq<u8>)
    ensures
        escape(a + b) == escape(a) + escape(b),
    decreases b.len(),
{
    if b.len() == 0 {
        assert(a + b =~= a);
        assert(escape(a) + escape(b) =~= escape(a));
    } else {
        lemma_escape_concat(a, b.drop_last());
        assert((a + b).drop_last() =~= a + b.drop_last());
        assert(escape(a) + escape(b) =~= escape(a) + escape(b.drop_last()) + escape_byte(b.last()));
    }
}

proof fn lemma_escape_cons(b: u8, s: Seq<u8>)
    ensures
        escape(seq![b] + s) == escape_byte(b) + escape(s),
{
    lemma_escape_concat(seq![b], s);
    assert(seq![b].drop_last() =~= Seq::<u8>::empty());
    assert(seq![b].last() == b);
    assert(escape(Seq::<u8>::empty()) =~= Seq::<u8>::empty());
    assert(escape(seq![b]) =~= escape_byte(b));
}

/// Escaped text never holds a raw newline.
proof fn lemma_escape_no_newline(s: Seq<u8>)
    ensures
        forall|i: int| 0 <= i < escape(s).len() ==> escape(s)[i] != NEWLINE,
    decreases s.len(),
{
    if s.len() > 0 {
        lemma_escape_no_newline(s.drop_last());
        let a = escape(s.drop_last());
        let e = escape_byte(s.last());
        assert forall|i: int| 0 <= i < escape(s).len() implies escape(s)[i] != NEWLINE by {
            if i >= a.len() {
                assert(escape(s)[i] == e[i - a.len()]);
            } else {
                assert(escape(s)[i] == a[i]);
            }
        }
    }
}

/// Reading escaped text back gives the bytes that were escaped.
proof fn lemma_unescape_escape(k: Seq<u8>, rest: Seq<u8>)
    ensures
        unescape(escape(k) + seq![QUOTE] + rest) == Some((k, rest)),
    decreases k.len(),
{
    let s = escape(k) + seq![QUOTE] + rest;
    if k.len() == 0 {
        assert(s =~= seq![QUOTE] + rest);
        assert(s.drop_first() =~= rest);
    } else {
        let b = k[0];
        let t = k.drop_first();
        assert(k =~= seq![b] + t);
        lemma_escape_cons(b, t);
        lemma_unescape_escape(t, rest);
        let tail = escape(t) + seq![QUOTE] + rest;
        if b == BACKSLASH || b == QUOTE || b == NEWLINE {
            assert(s =~= escape_byte(b) + tail);
            assert(s.subrange(2, s.len() as int) =~= tail);
        } else {
            assert(s =~= seq![b] + tail);
            assert(s.drop_first() =~= tail);
        }
        assert(seq![b] + t =~= k);
    }
}

/// What reads back as text is that text escaped, then the closing quote.
proof fn lemma_escape_unescape(s: Seq<u8>)
    ensures
        unescape(s) matches Some((d, rest)) ==> s == escape(d) + seq![QUOTE] + rest,
    decreases s.len(),
{
    if s.len() > 0 {
        if s[0] == QUOTE {
            assert(s =~= escape(Seq::<u8>::empty()) + seq![QUOTE] + s.drop_first());
        } else if s[0] == BACKSLASH {
            if s.len() >= 2 && is_escape_code(s[1]) {
                let tail = s.subrange(2, s.len() as int);
                lemma_escape_unescape(tail);
                if let Some((d, rest)) = unescape(tail) {
                    let c = unescape_code(s[1]);
                    lemma_escape_cons(c, d);
                    assert(s =~= escape_byte(c) + (escape(d) + seq![QUOTE] + rest));
                    assert(escape(seq![c] + d) + seq![QUOTE] + rest =~= escape_byte(c) + (escape(d)
                        + seq![QUOTE] + rest));
                }
            }
        } else if s[0] != NEWLINE {
            let tail = s.drop_first();
            lemma_escape_unescape(tail);
            if let Some((d, rest)) = unescape(tail) {
                lemma_escape_cons(s[0], d);
                assert(s =~= seq![s[0]] + (escape(d) + seq![QUOTE] + rest));
                assert(escape(seq![s[0]] + d) + seq![QUOTE] + rest =~= escape_byte(s[0]) + (escape(d)
                    + seq![QUOTE] + rest));
            }
        }
    }
}


/// The bytes hold no newline.
pub open spec fn no_newline(s: Seq<u8>) -> bool {
    forall|i: int| 0 <= i < s.len() ==> s[i] != NEWLINE
}

proof fn lemma_no_newline_concat(a: Seq<u8>, b: Seq<u8>)
    requires
        no_newline(a),
        no_newline(b),
    ensures
        no_newline(a + b),
{
    assert forall|i: int| 0 <= i < (a + b).len() implies (a + b)[i] != NEWLINE by {
        if i < a.len() {
            assert((a + b)[i] == a[i]);
        } else {
            assert((a + b)[i] == b[i - a.len()]);
        }
    }
}

/// A record line holds no newline, so newlines split the log into records.
pub proof fn lemma_record_no_newline(c: Command)
    ensures
        no_newline(record_bytes(c)),
{
    match c {
        Command::SetKey { key, value } => {
            lemma_escape_no_newline(encode_utf8(key));
            lemma_escape_no_newline(encode_utf8(value));
            lemma_no_newline_concat(set_tag(), seq![QUOTE]);
            lemma_no_newline_concat(set_tag() + seq![QUOTE], escape(encode_utf8(key)));
            lemma_no_newline_concat(set_tag() + seq![QUOTE] + escape(encode_utf8(key)), seq![QUOTE, COMMA, QUOTE]);
            lemma_no_newline_concat(set_tag() + seq![QUOTE] + escape(encode_utf8(key)) + seq![QUOTE, COMMA, QUOTE], escape(encode_utf8(value)));
            lemma_no_newline_concat(set_tag() + seq![QUOTE] + escape(encode_utf8(key)) + seq![QUOTE, COMMA, QUOTE] + escape(encode_utf8(value)), seq![QUOTE, CLOSE]);
            assert(record_bytes(c) =~= set_tag() + seq![QUOTE] + escape(encode_utf8(key)) + seq![QUOTE, COMMA, QUOTE] + escape(encode_utf8(value)) + seq![QUOTE, CLOSE]);
        },
        Command::Remove { key } => {
            lemma_escape_no_newline(encode_utf8(key));
            lemma_no_newline_concat(rm_tag(), seq![QUOTE]);
            lemma_no_newline_concat(rm_tag() + seq![QUOTE], escape(encode_utf8(key)));
            lemma_no_newline_concat(rm_tag() + seq![QUOTE] + escape(encode_utf8(key)), seq![QUOTE, CLOSE]);
            assert(record_bytes(c) =~= rm_tag() + seq![QUOTE] + escape(encode_utf8(key)) + seq![QUOTE, CLOSE]);
        },
        Command::Get { .. } => {},
    }
}

proof fn lemma_unquote_quoted(k: Seq<u8>, rest: Seq<u8>)
    ensures
        unquote(quoted(k) + rest) == Some((k, rest)),
{
    let s = quoted(k) + rest;
    lemma_unescape_escape(k, rest);
    assert(s.drop_first() =~= escape(k) + seq![QUOTE] + rest);
}

proof fn lemma_quoted_unquote(s: Seq<u8>)
    ensures
        unquote(s) matches Some((k, rest)) ==> s == quoted(k) + rest,
{
    if s.len() > 0 && s[0] == QUOTE {
        lemma_escape_unescape(s.drop_first());
        if let Some((k, rest)) = unquote(s) {
            assert(s =~= seq![QUOTE] + s.drop_first());
            assert(s =~= quoted(k) + rest);
        }
    }
}

/// A record line reads back as the command it was written from.
pub proof fn lemma_parse_record_bytes(c: Command)
    requires
        is_record(c),
    ensures
        parse_record_bytes(record_bytes(c)) == Some(c),
{
    let l = record_bytes(c);
    match c {
        Command::SetKey { key, value } => {
            let kb = encode_utf8(key);
            let vb = encode_utf8(value);
            let r1 = seq![COMMA] + quoted(vb) + seq![CLOSE];
            assert(l.subrange(0, 4) =~= set_tag());
            assert(l.subrange(4, l.len() as int) =~= quoted(kb) + r1);
            lemma_unquote_quoted(kb, r1);
            assert(r1.drop_first() =~= quoted(vb) + seq![CLOSE]);
            lemma_unquote_quoted(vb, seq![CLOSE]);
        },
        Command::Remove { key } => {
            let kb = encode_utf8(key);
            assert(l.subrange(0, 4) != set_tag()) by {
                if l.len() >= 4 {
                    assert(l.subrange(0, 4)[0] != set_tag()[0]);
                }
            }
            assert(l.subrange(0, 3) =~= rm_tag());
            assert(l.subrange(3, l.len() as int) =~= quoted(kb) + seq![CLOSE]);
            lemma_unquote_quoted(kb, seq![CLOSE]);
        },
        Command::Get { .. } => {},
    }
}

/// A line that parses is exactly the record line of what it parses to.
pub proof fn lemma_record_bytes_parse(l: Seq<u8>)
    ensures
        parse_record_bytes(l) matches Some(c) ==> is_record(c) && record_bytes(c) == l,
{
    if let Some(c) = parse_record_bytes(l) {
        if l.len() >= 4 && l.subrange(0, 4) == set_tag() {
            let s = l.subrange(4, l.len() as int);
            lemma_quoted_unquote(s);
            let (k, r1) = unquote(s).unwrap();
            lemma_quoted_unquote(r1.drop_first());
            let (v, r2) = unquote(r1.drop_first()).unwrap();
            decode_utf8_encode_utf8(k);
            decode_utf8_encode_utf8(v);
            assert(r1 =~= seq![COMMA] + r1.drop_first());
            assert(l =~= set_tag() + s);
            assert(l =~= record_bytes(c));
        } else {
            let s = l.subrange(3, l.len() as int);
            lemma_quoted_unquote(s);
            let (k, r1) = unquote(s).unwrap();
            decode_utf8_encode_utf8(k);
            assert(l =~= rm_tag() + s);
            assert(l =~= record_bytes(c));
        }
    }
}

/// Distinct commands have distinct record lines.
pub proof fn lemma_record_bytes_injective(c1: Command, c2: Command)
    requires
        is_record(c1),
        is_record(c2),
        record_bytes(c1) == record_bytes(c2),
    ensures
        c1 == c2,
{
    lemma_parse_record_bytes(c1);
    lemma_parse_record_bytes(c2);
}

proof fn lemma_prefix_cons(o: Seq<u8>, b: u8, r: Option<(Seq<u8>, Seq<u8>)>)
    ensures
        prefix_text(o, cons_text(b, r)) == prefix_text(o.push(b), r),
{
    if let Some((d, rest)) = r {
        assert(o + (seq![b] + d) =~= o.push(b) + d);
    }
}

/// Appends the escaped form of `s` to `out`.
fn push_escaped(out: &mut Vec<u8>, s: &[u8])
    ensures
        final(out)@ == old(out)@ + escape(s@),
{
    let ghost start = out@;
    let mut i: usize = 0;
    while i < s.len()
        invariant
            0 <= i <= s@.len(),
            out@ == start + escape(s@.subrange(0, i as int)),
        decreases s@.len() - i,
    {
        let b = s[i];
        if b == BACKSLASH {
            out.push(BACKSLASH);
            out.push(BACKSLASH);
        } else if b == QUOTE {
            out.push(BACKSLASH);
            out.push(QUOTE);
        } else if b == NEWLINE {
            out.push(BACKSLASH);
            out.push(LETTER_N);
        } else {
            out.push(b);
        }
        proof {
            let p = s@.subrange(0, i + 1);
            assert(p.drop_last() =~= s@.subrange(0, i as int));
            assert(out@ =~= start + escape(p));
        }
        i = i + 1;
    }
    assert(s@.subrange(0, s@.len() as int) =~= s@);
}

/// Appends `s` to `out`, escaped and between quotes.
fn push_quoted(out: &mut Vec<u8>, s: &[u8])
    ensures
        final(out)@ == old(out)@ + quoted(s@),
{
    let ghost start = out@;
    out.push(QUOTE);
    push_escaped(out, s);
    out.push(QUOTE);
    assert(out@ =~= start + quoted(s@));
}

/// The record line of a command.
pub fn encode_record(action: &Action) -> (line: Vec<u8>)
    requires
        is_record(action@),
    ensures
        line@ == record_bytes(action@),
{
    let mut out: Vec<u8> = Vec::new();
    match action {
        Action::SetKey(c) => {
            out.push(83u8);
            out.push(69u8);
            out.push(84u8);
            out.push(OPEN);
            push_quoted(&mut out, c.key.as_str().as_bytes());
            out.push(COMMA);
            push_quoted(&mut out, c.value.as_str().as_bytes());
            out.push(CLOSE);
        },
        Action::Remove(c) => {
            out.push(82u8);
            out.push(77u8);
            out.push(OPEN);
            push_quoted(&mut out, c.key.as_str().as_bytes());
            out.push(CLOSE);
        },
        Action::Get(_) => {},
    }
    assert(out@ =~= record_bytes(action@));
    out
}

/// Reads the quoted string that starts at `pos` in `buf[..hi]`: its bytes,
/// and the position after its closing quote.
fn parse_quoted(buf: &[u8], pos: usize, hi: usize) -> (r: Option<(Vec<u8>, usize)>)
    requires
        pos <= hi <= buf@.len(),
    ensures
        match r {
            Some((d, p)) => pos < p <= hi && unquote(buf@.subrange(pos as int, hi as int)) == Some(
                (d@, buf@.subrange(p as int, hi as int)),
            ),
            None => unquote(buf@.subrange(pos as int, hi as int)) is None,
        },
{
    if pos >= hi || buf[pos] != QUOTE {
        return None;
    }
    assert(buf@.subrange(pos as int, hi as int).drop_first() =~= buf@.subrange(pos + 1, hi as int));
    let mut out: Vec<u8> = Vec::new();
    let mut i: usize = pos + 1;
    assert(out@ + Seq::<u8>::empty() =~= Seq::<u8>::empty());
    proof {
        if let Some((d, rest)) = unescape(buf@.subrange(i as int, hi as int)) {
            assert(out@ + d =~= d);
        }
    }
    while i < hi
        invariant
            pos + 1 <= i <= hi <= buf@.len(),
            unquote(buf@.subrange(pos as int, hi as int)) == unescape(buf@.subrange(pos + 1, hi as int)),
            unescape(buf@.subrange(pos + 1, hi as int)) == prefix_text(
                out@,
                unescape(buf@.subrange(i as int, hi as int)),
            ),
        decreases hi - i,
    {
        let b = buf[i];
        let ghost cur = buf@.subrange(i as int, hi as int);
        if b == QUOTE {
            assert(cur.drop_first() =~= buf@.subrange(i + 1, hi as int));
            assert(out@ + Seq::<u8>::empty() =~= out@);
            return Some((out, i + 1));
        } else if b == BACKSLASH {
            if i + 1 < hi && (buf[i + 1] == BACKSLASH || buf[i + 1] == QUOTE || buf[i + 1]
                == LETTER_N) {
                let c = if buf[i + 1] == LETTER_N {
                    NEWLINE
                } else {
                    buf[i + 1]
                };
                proof {
                    assert(cur.subrange(2, cur.len() as int) =~= buf@.subrange(i + 2, hi as int));
                    lemma_prefix_cons(out@, c, unescape(buf@.subrange(i + 2, hi as int)));
                }
                out.push(c);
                i = i + 2;
            } else {
                return None;
            }
        } else if b == NEWLINE {
            return None;
        } else {
            proof {
                assert(cur.drop_first() =~= buf@.subrange(i + 1, hi as int));
                lemma_prefix_cons(out@, b, unescape(buf@.subrange(i + 1, hi as int)));
            }
            out.push(b);
            i = i + 1;
        }
    }
    None
}


/// Reads the record line `buf[lo..hi]`.
fn parse_record_in(buf: &[u8], lo: usize, hi: usize) -> (r: Option<Action>)
    requires
        lo <= hi <= buf@.len(),
    ensures
        match r {
            Some(a) => parse_record_bytes(buf@.subrange(lo as int, hi as int)) == Some(a@),
            None => parse_record_bytes(buf@.subrange(lo as int, hi as int)) is None,
        },
{
    let ghost l = buf@.subrange(lo as int, hi as int);
    if hi - lo >= 4 && buf[lo] == 83u8 && buf[lo + 1] == 69u8 && buf[lo + 2] == 84u8 && buf[lo + 3]
        == OPEN {
        assert(l.subrange(0, 4) =~= set_tag());
        assert(l.subrange(4, l.len() as int) =~= buf@.subrange(lo + 4, hi as int));
        let (kb, key_end) = match parse_quoted(buf, lo + 4, hi) {
            Some(x) => x,
            None => return None,
        };
        if key_end >= hi || buf[key_end] != COMMA {
            return None;
        }
        assert(buf@.subrange(key_end as int, hi as int).drop_first() =~= buf@.subrange(key_end + 1, hi as int));
        let (vb, value_end) = match parse_quoted(buf, key_end + 1, hi) {
            Some(x) => x,
            None => return None,
        };
        if !(value_end < hi && hi - value_end == 1 && buf[value_end] == CLOSE) {
            assert(buf@.subrange(value_end as int, hi as int) != seq![CLOSE]) by {
                if buf@.subrange(value_end as int, hi as int) == seq![CLOSE] {
                    assert(buf@.subrange(value_end as int, hi as int).len() == 1);
                    assert(buf@.subrange(value_end as int, hi as int)[0] == buf@[value_end as int]);
                }
            }
            return None;
        }
        assert(buf@.subrange(value_end as int, hi as int) =~= seq![CLOSE]);
        let key = match string_from_utf8(kb) {
            Some(k) => k,
            None => return None,
        };
        let value = match string_from_utf8(vb) {
            Some(v) => v,
            None => return None,
        };
        Some(Action::SetKey(SetCmd { key, value }))
    } else if hi - lo >= 3 && buf[lo] == 82u8 && buf[lo + 1] == 77u8 && buf[lo + 2] == OPEN {
        assert(!(l.len() >= 4 && l.subrange(0, 4) == set_tag())) by {
            if l.len() >= 4 && l.subrange(0, 4) == set_tag() {
                assert(l.subrange(0, 4)[0] == l[0]);
            }
        }
        assert(l.subrange(0, 3) =~= rm_tag());
        assert(l.subrange(3, l.len() as int) =~= buf@.subrange(lo + 3, hi as int));
        let (kb, key_end) = match parse_quoted(buf, lo + 3, hi) {
            Some(x) => x,
            None => return None,
        };
        if !(key_end < hi && hi - key_end == 1 && buf[key_end] == CLOSE) {
            assert(buf@.subrange(key_end as int, hi as int) != seq![CLOSE]) by {
                if buf@.subrange(key_end as int, hi as int) == seq![CLOSE] {
                    assert(buf@.subrange(key_end as int, hi as int).len() == 1);
                    assert(buf@.subrange(key_end as int, hi as int)[0] == buf@[key_end as int]);
                }
            }
            return None;
        }
        assert(buf@.subrange(key_end as int, hi as int) =~= seq![CLOSE]);
        let key = match string_from_utf8(kb) {
            Some(k) => k,
            None => return None,
        };
        Some(Action::Remove(RmCmd { key }))
    } else {
        assert(!(l.len() >= 4 && l.subrange(0, 4) == set_tag())) by {
            if l.len() >= 4 && l.subrange(0, 4) == set_tag() {
                assert(l.subrange(0, 4)[0] == l[0]);
                assert(l.subrange(0, 4)[1] == l[1]);
                assert(l.subrange(0, 4)[2] == l[2]);
                assert(l.subrange(0, 4)[3] == l[3]);
            }
        }
        assert(!(l.len() >= 3 && l.subrange(0, 3) == rm_tag())) by {
            if l.len() >= 3 && l.subrange(0, 3) == rm_tag() {
                assert(l.subrange(0, 3)[0] == l[0]);
                assert(l.subrange(0, 3)[1] == l[1]);
                assert(l.subrange(0, 3)[2] == l[2]);
            }
        }
        None
    }
}

/// Reads one record line. It succeeds exactly on the lines that
/// `encode_record` writes, and gives back the command written.
pub fn parse_record(line: &[u8]) -> (r: Option<Action>)
    ensures
        match r {
            Some(a) => is_record(a@) && record_bytes(a@) == line@,
            None => forall|c: Command| is_record(c) ==> record_bytes(c) != line@,
        },
{
    let r = parse_record_in(line, 0, line.len());
    assert(line@.subrange(0, line@.len() as int) =~= line@);
    proof {
        lemma_record_bytes_parse(line@);
        assert forall|c: Command| is_record(c) && r is None implies record_bytes(c) != line@ by {
            lemma_parse_record_bytes(c);
        }
    }
    r
}

/// The commands that a sequence of actions stands for.
pub open spec fn commands(v: Seq<Action>) -> Seq<Command> {
    v.map_values(|a: Action| a@)
}

/// Every command of the sequence is one that the log holds.
pub open spec fn all_records(rs: Seq<Command>) -> bool {
    forall|i: int| 0 <= i < rs.len() ==> is_record(#[trigger] rs[i])
}

/// The log that holds the records `rs`, in order, each ended by a newline.
pub open spec fn log_bytes(rs: Seq<Command>) -> Seq<u8>
    decreases rs.len(),
{
    if rs.len() == 0 {
        Seq::empty()
    } else {
        log_bytes(rs.drop_last()) + record_bytes(rs.last()) + seq![NEWLINE]
    }
}

/// The position of the first newline in `s`, or -1.
pub open spec fn first_newline(s: Seq<u8>) -> int
    decreases s.len(),
{
    if s.len() == 0 {
        -1
    } else if s[0] == NEWLINE {
        0
    } else {
        let j = first_newline(s.drop_first());
        if j < 0 {
            -1
        } else {
            j + 1
        }
    }
}

/// Cuts a log at its newlines and reads each line as a record.
pub open spec fn parse_log_bytes(t: Seq<u8>) -> Option<Seq<Command>>
    decreases t.len(),
{
    if t.len() == 0 {
        Some(Seq::empty())
    } else {
        let j = first_newline(t);
        if j < 0 || j >= t.len() {
            None
        } else {
            match parse_record_bytes(t.subrange(0, j)) {
                Some(c) => match parse_log_bytes(t.subrange(j + 1, t.len() as int)) {
                    Some(rs) => Some(seq![c] + rs),
                    None => None,
                },
                None => None,
            }
        }
    }
}

/// Puts the commands `p` in front of a successful read.
pub open spec fn prefix_commands(p: Seq<Command>, r: Option<Seq<Command>>) -> Option<Seq<Command>> {
    match r {
        Some(rs) => Some(p + rs),
        None => None,
    }
}

/// The log of two runs of records is the log of the first, then that of the second.
pub proof fn lemma_log_bytes_concat(a: Seq<Command>, b: Seq<Command>)
    ensures
        log_bytes(a + b) == log_bytes(a) + log_bytes(b),
    decreases b.len(),
{
    if b.len() == 0 {
        assert(a + b =~= a);
        assert(log_bytes(a) + log_bytes(b) =~= log_bytes(a));
    } else {
        lemma_log_bytes_concat(a, b.drop_last());
        assert((a + b).drop_last() =~= a + b.drop_last());
        assert(log_bytes(a) + log_bytes(b) =~= log_bytes(a) + log_bytes(b.drop_last())
            + record_bytes(b.last()) + seq![NEWLINE]);
    }
}

proof fn lemma_first_newline_at(s: Seq<u8>, j: int)
    requires
        0 <= j < s.len(),
        s[j] == NEWLINE,
        forall|i: int| 0 <= i < j ==> s[i] != NEWLINE,
    ensures
        first_newline(s) == j,
    decreases j,
{
    if j > 0 {
        lemma_first_newline_at(s.drop_first(), j - 1);
    }
}

proof fn lemma_first_newline_none(s: Seq<u8>)
    requires
        no_newline(s),
    ensures
        first_newline(s) == -1,
    decreases s.len(),
{
    if s.len() > 0 {
        lemma_first_newline_none(s.drop_first());
    }
}

proof fn lemma_first_newline_found(s: Seq<u8>)
    ensures
        first_newline(s) >= 0 ==> first_newline(s) < s.len() && s[first_newline(s)] == NEWLINE,
    decreases s.len(),
{
    if s.len() > 0 && s[0] != NEWLINE {
        lemma_first_newline_found(s.drop_first());
    }
}

proof fn lemma_log_bytes_cons(c: Command, t: Seq<Command>)
    ensures
        log_bytes(seq![c] + t) == record_bytes(c) + seq![NEWLINE] + log_bytes(t),
{
    lemma_log_bytes_concat(seq![c], t);
    assert(seq![c].drop_last() =~= Seq::<Command>::empty());
    assert(seq![c].last() == c);
    assert(log_bytes(Seq::<Command>::empty()) =~= Seq::<u8>::empty());
    assert(log_bytes(seq![c]) =~= record_bytes(c) + seq![NEWLINE]);
}

/// A log reads back as the records it was written from.
pub proof fn lemma_parse_log_bytes(rs: Seq<Command>)
    requires
        all_records(rs),
    ensures
        parse_log_bytes(log_bytes(rs)) == Some(rs),
    decreases rs.len(),
{
    if rs.len() > 0 {
        let c = rs[0];
        let t = rs.drop_first();
        assert(rs =~= seq![c] + t);
        assert(all_records(t)) by {
            assert forall|i: int| 0 <= i < t.len() implies is_record(#[trigger] t[i]) by {
                assert(t[i] == rs[i + 1]);
            }
        }
        lemma_parse_log_bytes(t);
        lemma_log_bytes_cons(c, t);
        let line = record_bytes(c);
        let whole = log_bytes(rs);
        assert(whole =~= line + seq![NEWLINE] + log_bytes(t));
        lemma_record_no_newline(c);
        assert forall|i: int| 0 <= i < line.len() implies whole[i] != NEWLINE by {
            assert(whole[i] == line[i]);
        }
        lemma_first_newline_at(whole, line.len() as int);
        assert(whole.subrange(0, line.len() as int) =~= line);
        assert(whole.subrange(line.len() as int + 1, whole.len() as int) =~= log_bytes(t));
        lemma_parse_record_bytes(c);
    }
}

proof fn lemma_all_records_cons(c: Command, tail: Seq<Command>)
    requires
        is_record(c),
        all_records(tail),
    ensures
        all_records(seq![c] + tail),
{
    let rs = seq![c] + tail;
    assert forall|i: int| 0 <= i < rs.len() implies is_record(#[trigger] rs[i]) by {
        if i > 0 {
            assert(rs[i] == tail[i - 1]);
        }
    }
}

proof fn lemma_split_at_newline(t: Seq<u8>, j: int)
    requires
        0 <= j < t.len(),
        t[j] == NEWLINE,
    ensures
        t == t.subrange(0, j) + seq![NEWLINE] + t.subrange(j + 1, t.len() as int),
{
    assert(t =~= t.subrange(0, j) + seq![NEWLINE] + t.subrange(j + 1, t.len() as int));
}

/// A log that reads back is exactly the log of the records it reads as.
#[verifier::rlimit(20)]
pub proof fn lemma_log_bytes_parse(t: Seq<u8>)
    ensures
        parse_log_bytes(t) matches Some(rs) ==> all_records(rs) && log_bytes(rs) == t,
    decreases t.len(),
{
    if t.len() > 0 {
        let j = first_newline(t);
        if 0 <= j < t.len() {
            let line = t.subrange(0, j);
            let rest = t.subrange(j + 1, t.len() as int);
            lemma_log_bytes_parse(rest);
            lemma_record_bytes_parse(line);
            lemma_first_newline_found(t);
            if let Some(c) = parse_record_bytes(line) {
                if let Some(tail) = parse_log_bytes(rest) {
                    lemma_log_bytes_cons(c, tail);
                    lemma_split_at_newline(t, j);
                    lemma_all_records_cons(c, tail);
                }
            }
        }
    }
}

/// Reads a whole log: the commands of its records, in order. It succeeds
/// exactly on the logs that some sequence of records gives, every record
/// ended by its newline.
pub fn parse_log(text: &[u8]) -> (r: Option<Vec<Action>>)
    ensures
        match r {
            Some(v) => all_records(commands(v@)) && log_bytes(commands(v@)) == text@,
            None => forall|rs: Seq<Command>| all_records(rs) ==> log_bytes(rs) != text@,
        },
{
    let n = text.len();
    let mut recs: Vec<Action> = Vec::new();
    let mut start: usize = 0;
    let mut i: usize = 0;
    assert(text@.subrange(0, n as int) =~= text@);
    assert(commands(recs@) + Seq::<Command>::empty() =~= Seq::<Command>::empty());
    proof {
        if let Some(rs) = parse_log_bytes(text@) {
            assert(commands(recs@) + rs =~= rs);
        }
    }
    while i < n
        invariant
            n == text@.len(),
            start <= i <= n,
            parse_log_bytes(text@) == prefix_commands(
                commands(recs@),
                parse_log_bytes(text@.subrange(start as int, n as int)),
            ),
            forall|j: int| start <= j < i ==> text@[j] != NEWLINE,
        decreases n - i,
    {
        if text[i] == NEWLINE {
            let ghost s = text@.subrange(start as int, n as int);
            proof {
                lemma_first_newline_at(s, i - start);
                assert(s.subrange(0, i - start) =~= text@.subrange(start as int, i as int));
                assert(s.subrange(i - start + 1, s.len() as int) =~= text@.subrange(i + 1, n as int));
            }
            match parse_record_in(text, start, i) {
                Some(a) => {
                    proof {
                        let rest = parse_log_bytes(text@.subrange(i + 1, n as int));
                        if let Some(rs) = rest {
                            assert(commands(recs@) + (seq![a@] + rs) =~= commands(recs@.push(a)) + rs);
                        }
                    }
                    recs.push(a);
                    start = i + 1;
                },
                None => {
                    proof {
                        lemma_log_bytes_parse(text@);
                        assert forall|rs: Seq<Command>| all_records(rs) implies log_bytes(rs) != text@ by {
                            if log_bytes(rs) == text@ {
                                lemma_parse_log_bytes(rs);
                            }
                        }
                    }
                    return None;
                },
            }
        }
        i = i + 1;
    }
    proof {
        lemma_log_bytes_parse(text@);
        if start < n {
            let s = text@.subrange(start as int, n as int);
            lemma_first_newline_none(s);
        } else {
            assert(text@.subrange(start as int, n as int) =~= Seq::<u8>::empty());
            assert(commands(recs@) + Seq::<Command>::empty() =~= commands(recs@));
        }
        assert forall|rs: Seq<Command>| all_records(rs) && start < n implies log_bytes(rs) != text@ by {
            if log_bytes(rs) == text@ {
                lemma_parse_log_bytes(rs);
            }
        }
    }
    if start == n {
        Some(recs)
    } else {
        None
    }
}

} // verus!
