use vstd::prelude::*;

use crate::router::{copy_bytes, Event};
use crate::scan::{check_frame, find_key, first_key_from, frame_ok, skip_ws, skip_ws_exec, trim_end, trim_end_exec, value_end, value_end_from};

verus! {

/// Why a command could not be encoded.
#[derive(Debug, Clone, Copy, PartialEq, Eq)]
pub enum EncodeError {
    /// The command name or an argument holds a newline, which would split the frame.
    InvalidArgument,
}

/// Whether `s` holds a newline byte.
pub open spec fn has_newline(s: Seq<u8>) -> bool {
    exists|i: int| 0 <= i < s.len() && s[i] == 10u8
}

/// The hexadecimal digit, in lower case, for `n` below sixteen.
pub open spec fn hex_digit(n: u8) -> u8 {
    if n < 10 { (48 + n) as u8 } else { (87 + n) as u8 }
}

/// How one byte stands inside a quoted string of the wire format.
pub open spec fn escape_byte(b: u8) -> Seq<u8> {
    if b == 34u8 {
        seq![92u8, 34u8]
    } else if b == 92u8 {
        seq![92u8, 92u8]
    } else if b < 32u8 {
        seq![92u8, 117u8, 48u8, 48u8, hex_digit(b / 16), hex_digit(b % 16)]
    } else {
        seq![b]
    }
}

/// The bytes of `s`, each escaped.
pub open spec fn escaped(s: Seq<u8>) -> Seq<u8>
    decreases s.len(),
{
    if s.len() == 0 {
        Seq::empty()
    } else {
        escaped(s.drop_last()) + escape_byte(s.last())
    }
}

/// `s` as a quoted string of the wire format.
pub open spec fn quoted(s: Seq<u8>) -> Seq<u8> {
    seq![34u8] + escaped(s) + seq![34u8]
}

/// The items of `items`, each quoted, separated by commas.
pub open spec fn quoted_list(items: Seq<Seq<u8>>) -> Seq<u8>
    decreases items.len(),
{
    if items.len() == 0 {
        Seq::empty()
    } else if items.len() == 1 {
        quoted(items[0])
    } else {
        quoted_list(items.drop_last()) + seq![44u8] + quoted(items.last())
    }
}

/// The decimal digits of `n`, most significant first.
pub open spec fn decimal(n: nat) -> Seq<u8>
    decreases n,
{
    if n < 10 {
        seq![(48 + n) as u8]
    } else {
        decimal(n / 10).push((48 + n % 10) as u8)
    }
}

/// `{"command":[`
pub open spec fn frame_head() -> Seq<u8> {
    seq![123u8, 34u8, 99u8, 111u8, 109u8, 109u8, 97u8, 110u8, 100u8, 34u8, 58u8, 91u8]
}

/// `],"request_id":`
pub open spec fn frame_middle() -> Seq<u8> {
    seq![93u8, 44u8, 34u8, 114u8, 101u8, 113u8, 117u8, 101u8, 115u8, 116u8, 95u8, 105u8, 100u8, 34u8, 58u8]
}

/// `}` and the newline that ends every frame.
pub open spec fn frame_tail() -> Seq<u8> {
    seq![125u8, 10u8]
}

/// The frame that carries command `name` with `args` under identifier `id`:
/// one object on one line, holding the command and its arguments as a list
/// of strings, and the identifier.
pub open spec fn command_frame(name: Seq<u8>, args: Seq<Seq<u8>>, id: u64) -> Seq<u8> {
    frame_head() + quoted_list(seq![name] + args) + frame_middle() + decimal(id as nat) + frame_tail()
}

/// Appends the bytes of `lit` to `out`.
fn push_seq(out: &mut Vec<u8>, lit: &[u8])
    ensures
        final(out)@ == old(out)@ + lit@,
{
    let ghost start = out@;
    let mut i: usize = 0;
    while i < lit.len()
        invariant
            i <= lit@.len(),
            out@ == start + lit@.subrange(0, i as int),
        decreases lit@.len() - i,
    {
        out.push(lit[i]);
        i = i + 1;
        proof {
            assert(out@ =~= start + lit@.subrange(0, i as int));
        }
    }
    proof {
        assert(lit@.subrange(0, lit@.len() as int) == lit@);
    }
}

/// Appends the decimal digits of `n` to `out`.
fn push_decimal(out: &mut Vec<u8>, n: u64)
    ensures
        final(out)@ == old(out)@ + decimal(n as nat),
    decreases n,
{
    if n >= 10 {
        push_decimal(out, n / 10);
    }
    out.push((48 + n % 10) as u8);
    proof {
        assert(final(out)@ =~= old(out)@ + decimal(n as nat));
    }
}

/// Appends `s` as a quoted string to `out`.
fn push_quoted(out: &mut Vec<u8>, s: &Vec<u8>)
    ensures
        final(out)@ == old(out)@ + quoted(s@),
{
    let ghost start = out@;
    out.push(34u8);
    let mut i: usize = 0;
    while i < s.len()
        invariant
            i <= s@.len(),
            out@ == start + seq![34u8] + escaped(s@.subrange(0, i as int)),
        decreases s@.len() - i,
    {
        let b = s[i];
        let ghost before = out@;
        if b == 34u8 {
            out.push(92u8);
            out.push(34u8);
        } else if b == 92u8 {
            out.push(92u8);
            out.push(92u8);
        } else if b < 32u8 {
            out.push(92u8);
            out.push(117u8);
            out.push(48u8);
            out.push(48u8);
            let hi = b / 16;
            let lo = b % 16;
            out.push(if hi < 10 { 48 + hi } else { 87 + hi });
            out.push(if lo < 10 { 48 + lo } else { 87 + lo });
        } else {
            out.push(b);
        }
        proof {
            assert(s@.subrange(0, i + 1).drop_last() =~= s@.subrange(0, i as int));
            assert(out@ =~= before + escape_byte(b));
        }
        i = i + 1;
    }
    out.push(34u8);
    proof {
        assert(s@.subrange(0, s@.len() as int) == s@);
        assert(out@ =~= start + quoted(s@));
    }
}

/// Whether `s` holds a newline byte.
fn contains_newline(s: &Vec<u8>) -> (r: bool)
    ensures
        r == has_newline(s@),
{
    let mut i: usize = 0;
    while i < s.len()
        invariant
            i <= s@.len(),
            forall|k: int| 0 <= k < i ==> s@[k] != 10u8,
        decreases s@.len() - i,
    {
        if s[i] == 10u8 {
            return true;
        }
        i = i + 1;
    }
    false
}

/// Encodes command `name` with `args` under identifier `id` as one frame.
/// Fails with `InvalidArgument`, before anything is built, when the name or
/// an argument holds a newline.
pub fn encode_command(name: &Vec<u8>, args: &Vec<Vec<u8>>, id: u64) -> (r: Result<Vec<u8>, EncodeError>)
    ensures
        (has_newline(name@) || exists|k: int| 0 <= k < args@.len() && has_newline(#[trigger] args@[k]@))
            ==> r == Err::<Vec<u8>, EncodeError>(EncodeError::InvalidArgument),
        !(has_newline(name@) || exists|k: int| 0 <= k < args@.len() && has_newline(#[trigger] args@[k]@))
            ==> (r matches Ok(frame) && frame@ == command_frame(name@, args@.map_values(|a: Vec<u8>| a@), id)),
{
    if contains_newline(name) {
        return Err(EncodeError::InvalidArgument);
    }
    let mut k: usize = 0;
    while k < args.len()
        invariant
            k <= args@.len(),
            forall|j: int| 0 <= j < k ==> !has_newline(#[trigger] args@[j]@),
        decreases args@.len() - k,
    {
        if contains_newline(&args[k]) {
            return Err(EncodeError::InvalidArgument);
        }
        k = k + 1;
    }
    let ghost items = seq![name@] + args@.map_values(|a: Vec<u8>| a@);
    let mut out: Vec<u8> = Vec::new();
    let head: [u8; 12] = [123u8, 34u8, 99u8, 111u8, 109u8, 109u8, 97u8, 110u8, 100u8, 34u8, 58u8, 91u8];
    push_seq(&mut out, head.as_slice());
    proof {
        assert(out@ =~= frame_head());
    }
    push_quoted(&mut out, name);
    proof {
        assert(items.subrange(0, 1) =~= seq![name@]);
        assert(quoted_list(items.subrange(0, 1)) == quoted(name@));
    }
    let mut i: usize = 0;
    while i < args.len()
        invariant
            i <= args@.len(),
            items == seq![name@] + args@.map_values(|a: Vec<u8>| a@),
            out@ == frame_head() + quoted_list(items.subrange(0, i + 1)),
        decreases args@.len() - i,
    {
        out.push(44u8);
        push_quoted(&mut out, &args[i]);
        proof {
            let sub = items.subrange(0, i + 2);
            assert(sub.drop_last() =~= items.subrange(0, i + 1));
            assert(sub.last() == args@[i as int]@);
            assert(out@ =~= frame_head() + quoted_list(sub));
        }
        i = i + 1;
    }
    proof {
        assert(items.subrange(0, args@.len() + 1 as int) =~= items);
    }
    let middle: [u8; 15] = [93u8, 44u8, 34u8, 114u8, 101u8, 113u8, 117u8, 101u8, 115u8, 116u8, 95u8, 105u8, 100u8, 34u8, 58u8];
    push_seq(&mut out, middle.as_slice());
    push_decimal(&mut out, id);
    out.push(125u8);
    out.push(10u8);
    proof {
        assert(middle@ =~= frame_middle());
        assert(out@ =~= command_frame(name@, args@.map_values(|a: Vec<u8>| a@), id));
    }
    Ok(out)
}

/// Why an inbound line could not be decoded.
#[derive(Debug, Clone, Copy, PartialEq, Eq)]
pub enum DecodeError {
    /// The line is not one object, or a key is not followed by a colon.
    Malformed,
    /// A field the message needs is missing or has the wrong form.
    BadField,
    /// The object has neither a request identifier nor an event name.
    Unclassified,
}

/// A decoded inbound message.
#[derive(Debug, PartialEq, Eq)]
pub enum Inbound {
    /// The answer to the request `request_id`: its error string (`success`
    /// when it worked) and the raw text of its data, empty when it has none.
    Response { request_id: u64, error: Vec<u8>, data: Vec<u8> },
    /// An unsolicited event.
    Event(Event),
}

/// What a decoded message holds, as plain values.
pub enum InboundView {
    /// Request identifier, error string, data.
    Response(u64, Seq<u8>, Seq<u8>),
    /// Event name, whole line.
    Event(Seq<u8>, Seq<u8>),
}

impl View for Inbound {
    type V = InboundView;

    open spec fn view(&self) -> InboundView {
        match self {
            Inbound::Response { request_id, error, data } => InboundView::Response(*request_id, error@, data@),
            Inbound::Event(e) => InboundView::Event(e.name@, e.payload@),
        }
    }
}

/// What a line says of one key of its outermost object.
pub enum Member {
    /// No member has that key.
    Absent,
    /// The key is not followed by a colon.
    NoColon,
    /// The raw text of the value.
    Found(Seq<u8>),
}

/// The raw text of the value of the first member with key `k` of line `s`,
/// white space around it left out.
pub open spec fn member(s: Seq<u8>, k: Seq<u8>) -> Member {
    match first_key_from(s, k, 0) {
        None => Member::Absent,
        Some(i) => {
            let p = skip_ws(s, i + k.len() + 2);
            if p < s.len() && s[p] == 58u8 {
                let v = skip_ws(s, p + 1);
                Member::Found(s.subrange(v, trim_end(s, v, value_end_from(s, v, 0))))
            } else {
                Member::NoColon
            }
        }
    }
}

/// The key of a response's request identifier: `request_id`.
pub open spec fn key_request_id() -> Seq<u8> {
    seq![114u8, 101u8, 113u8, 117u8, 101u8, 115u8, 116u8, 95u8, 105u8, 100u8]
}

/// The key of a response's error string: `error`.
pub open spec fn key_error() -> Seq<u8> {
    seq![101u8, 114u8, 114u8, 111u8, 114u8]
}

/// The key of a response's data: `data`.
pub open spec fn key_data() -> Seq<u8> {
    seq![100u8, 97u8, 116u8, 97u8]
}

/// The key of an event's name: `event`.
pub open spec fn key_event() -> Seq<u8> {
    seq![101u8, 118u8, 101u8, 110u8, 116u8]
}

/// An ASCII decimal digit.
pub open spec fn is_digit(b: u8) -> bool {
    48u8 <= b <= 57u8
}

/// The number that the decimal digits `v` write.
pub open spec fn digits_value(v: Seq<u8>) -> nat
    decreases v.len(),
{
    if v.len() == 0 {
        0
    } else {
        digits_value(v.drop_last()) * 10 + (v.last() - 48) as nat
    }
}

/// `v` read as a request identifier: decimal digits whose value fits.
pub open spec fn parse_id(v: Seq<u8>) -> Option<u64> {
    if v.len() > 0 && (forall|i: int| 0 <= i < v.len() ==> is_digit(#[trigger] v[i])) && digits_value(v) <= u64::MAX {
        Some(digits_value(v) as u64)
    } else {
        None
    }
}

/// Whether `v` is a quoted string.
pub open spec fn is_string_lit(v: Seq<u8>) -> bool {
    v.len() >= 2 && v[0] == 34u8 && v.last() == 34u8
}

/// The text between the quotes of `v`, escapes left as they are.
pub open spec fn unquote(v: Seq<u8>) -> Seq<u8> {
    v.subrange(1, v.len() - 1)
}

/// The bytes of the error string of a response that worked.
pub open spec fn success_text() -> Seq<u8> {
    seq![115u8, 117u8, 99u8, 99u8, 101u8, 115u8, 115u8]
}

/// The error string of a response line `s`: the text of its `error` member,
/// or `success` when it has none.
pub open spec fn response_error(s: Seq<u8>) -> Result<Seq<u8>, DecodeError> {
    match member(s, key_error()) {
        Member::NoColon => Err(DecodeError::Malformed),
        Member::Absent => Ok(success_text()),
        Member::Found(ev) => if is_string_lit(ev) {
            Ok(unquote(ev))
        } else {
            Err(DecodeError::BadField)
        },
    }
}

/// What a response line `s` with request identifier `id` decodes to; its
/// data is empty when it has none.
pub open spec fn response_of(s: Seq<u8>, id: u64) -> Result<InboundView, DecodeError> {
    match response_error(s) {
        Err(e) => Err(e),
        Ok(error) => match member(s, key_data()) {
            Member::NoColon => Err(DecodeError::Malformed),
            Member::Absent => Ok(InboundView::Response(id, error, Seq::empty())),
            Member::Found(d) => Ok(InboundView::Response(id, error, d)),
        },
    }
}

/// What a line `s` without a request identifier decodes to.
pub open spec fn event_of(s: Seq<u8>) -> Result<InboundView, DecodeError> {
    match member(s, key_event()) {
        Member::NoColon => Err(DecodeError::Malformed),
        Member::Absent => Err(DecodeError::Unclassified),
        Member::Found(v) => if is_string_lit(v) {
            Ok(InboundView::Event(unquote(v), s))
        } else {
            Err(DecodeError::BadField)
        },
    }
}

/// What line `s` decodes to: a response when its object has a request
/// identifier in decimal that fits, else an event when it has an event name.
pub open spec fn decoded(s: Seq<u8>) -> Result<InboundView, DecodeError> {
    if !frame_ok(s) {
        Err(DecodeError::Malformed)
    } else {
        match member(s, key_request_id()) {
            Member::NoColon => Err(DecodeError::Malformed),
            Member::Found(v) => match parse_id(v) {
                Some(id) => response_of(s, id),
                None => event_of(s),
            },
            Member::Absent => event_of(s),
        }
    }
}

/// The bytes `s[a..b]`.
fn copy_range(s: &Vec<u8>, a: usize, b: usize) -> (r: Vec<u8>)
    requires
        a <= b <= s@.len(),
    ensures
        r@ == s@.subrange(a as int, b as int),
{
    let mut r: Vec<u8> = Vec::new();
    let mut i: usize = a;
    while i < b
        invariant
            a <= i <= b,
            b <= s@.len(),
            r@ == s@.subrange(a as int, i as int),
        decreases b - i,
    {
        r.push(s[i]);
        i = i + 1;
        proof {
            assert(r@ =~= s@.subrange(a as int, i as int));
        }
    }
    r
}

/// Finds the value of the first member with key `k` of a well-formed line.
/// `Err` when the key is not followed by a colon.
fn member_exec(s: &Vec<u8>, k: &Vec<u8>) -> (r: Result<Option<Vec<u8>>, ()>)
    requires
        frame_ok(s@),
    ensures
        member(s@, k@) is Absent ==> r == Ok::<Option<Vec<u8>>, ()>(None),
        member(s@, k@) is NoColon ==> r is Err,
        member(s@, k@) matches Member::Found(v) ==> (r matches Ok(Some(x)) && x@ == v),
{
    let n = s.len();
    match find_key(s, k) {
        None => Ok(None),
        Some(i) => {
            let p = skip_ws_exec(s, i + k.len() + 2);
            if p < n && s[p] == 58u8 {
                let v = skip_ws_exec(s, p + 1);
                let e = value_end(s, v);
                let t = trim_end_exec(s, v, e);
                Ok(Some(copy_range(s, v, t)))
            } else {
                Err(())
            }
        },
    }
}

/// Digits keep their value as more digits follow.
pub proof fn lemma_digits_grow(v: Seq<u8>, i: int, j: int)
    requires
        0 <= i <= j <= v.len(),
        forall|t: int| 0 <= t < v.len() ==> is_digit(#[trigger] v[t]),
    ensures
        digits_value(v.subrange(0, i)) <= digits_value(v.subrange(0, j)),
    decreases j - i,
{
    if i < j {
        lemma_digits_grow(v, i, j - 1);
        assert(v.subrange(0, j).drop_last() =~= v.subrange(0, j - 1));
    }
}

/// Reads a request identifier.
fn parse_id_exec(v: &Vec<u8>) -> (r: Option<u64>)
    ensures
        r == parse_id(v@),
{
    if v.len() == 0 {
        return None;
    }
    let mut acc: u64 = 0;
    let mut i: usize = 0;
    while i < v.len()
        invariant
            i <= v@.len(),
            acc as nat == digits_value(v@.subrange(0, i as int)),
            forall|t: int| 0 <= t < i ==> is_digit(#[trigger] v@[t]),
        decreases v@.len() - i,
    {
        let b = v[i];
        if b < 48u8 || b > 57u8 {
            return None;
        }
        let d = (b - 48) as u64;
        proof {
            assert(v@.subrange(0, i + 1).drop_last() =~= v@.subrange(0, i as int));
        }
        if acc > (u64::MAX - d) / 10 {
            proof {
                assert(acc * 10 + d > u64::MAX) by (nonlinear_arith)
                    requires acc > (u64::MAX - d) / 10, d <= 9;
                if forall|t: int| 0 <= t < v@.len() ==> is_digit(#[trigger] v@[t]) {
                    lemma_digits_grow(v@, i + 1, v@.len() as int);
                    assert(v@.subrange(0, v@.len() as int) =~= v@);
                }
            }
            return None;
        }
        proof {
            assert(acc * 10 + d <= u64::MAX) by (nonlinear_arith)
                requires acc <= (u64::MAX - d) / 10, d <= 9;
        }
        acc = acc * 10 + d;
        i = i + 1;
    }
    proof {
        assert(v@.subrange(0, v@.len() as int) =~= v@);
    }
    Some(acc)
}

/// The text between the quotes of a quoted string `v`, or `None` when `v`
/// is not one.
fn unquote_exec(v: &Vec<u8>) -> (r: Option<Vec<u8>>)
    ensures
        is_string_lit(v@) ==> (r matches Some(x) && x@ == unquote(v@)),
        !is_string_lit(v@) ==> r is None,
{
    let n = v.len();
    if n >= 2 && v[0] == 34u8 && v[n - 1] == 34u8 {
        Some(copy_range(v, 1, n - 1))
    } else {
        None
    }
}

/// Decodes a line that is not a response: an event, or an error.
fn decode_event(line: &Vec<u8>) -> (r: Result<Inbound, DecodeError>)
    requires
        frame_ok(line@),
    ensures
        r matches Ok(m) ==> event_of(line@) == Ok::<InboundView, DecodeError>(m@),
        r matches Err(e) ==> event_of(line@) == Err::<InboundView, DecodeError>(e),
{
    let k_event: Vec<u8> = vec![101u8, 118u8, 101u8, 110u8, 116u8];
    proof {
        assert(k_event@ =~= key_event());
    }
    match member_exec(line, &k_event) {
        Err(()) => Err(DecodeError::Malformed),
        Ok(None) => Err(DecodeError::Unclassified),
        Ok(Some(v)) => match unquote_exec(&v) {
            None => Err(DecodeError::BadField),
            Some(name) => Ok(Inbound::Event(Event { name, payload: copy_bytes(line) })),
        },
    }
}

/// Decodes a response line with request identifier `id`.
fn decode_response(line: &Vec<u8>, id: u64) -> (r: Result<Inbound, DecodeError>)
    requires
        frame_ok(line@),
    ensures
        r matches Ok(m) ==> response_of(line@, id) == Ok::<InboundView, DecodeError>(m@),
        r matches Err(e) ==> response_of(line@, id) == Err::<InboundView, DecodeError>(e),
{
    let k_error: Vec<u8> = vec![101u8, 114u8, 114u8, 111u8, 114u8];
    let k_data: Vec<u8> = vec![100u8, 97u8, 116u8, 97u8];
    proof {
        assert(k_error@ =~= key_error());
        assert(k_data@ =~= key_data());
    }
    let error = match member_exec(line, &k_error) {
        Err(()) => {
            return Err(DecodeError::Malformed);
        },
        Ok(None) => {
            let success: Vec<u8> = vec![115u8, 117u8, 99u8, 99u8, 101u8, 115u8, 115u8];
            proof {
                assert(success@ =~= success_text());
            }
            success
        },
        Ok(Some(ev)) => match unquote_exec(&ev) {
            None => {
                return Err(DecodeError::BadField);
            },
            Some(error) => error,
        },
    };
    assert(response_error(line@) == Ok::<Seq<u8>, DecodeError>(error@));
    match member_exec(line, &k_data) {
        Err(()) => Err(DecodeError::Malformed),
        Ok(None) => {
            let data: Vec<u8> = Vec::new();
            proof {
                assert(data@ =~= Seq::<u8>::empty());
            }
            Ok(Inbound::Response { request_id: id, error, data })
        },
        Ok(Some(data)) => Ok(Inbound::Response { request_id: id, error, data }),
    }
}

/// Decodes one inbound line, its newline already taken off.
pub fn decode(line: &Vec<u8>) -> (r: Result<Inbound, DecodeError>)
    ensures
        r matches Ok(m) ==> decoded(line@) == Ok::<InboundView, DecodeError>(m@),
        r matches Err(e) ==> decoded(line@) == Err::<InboundView, DecodeError>(e),
{
    if !check_frame(line) {
        return Err(DecodeError::Malformed);
    }
    let k_id: Vec<u8> = vec![114u8, 101u8, 113u8, 117u8, 101u8, 115u8, 116u8, 95u8, 105u8, 100u8];
    proof {
        assert(k_id@ =~= key_request_id());
    }
    match member_exec(line, &k_id) {
        Err(()) => Err(DecodeError::Malformed),
        Ok(Some(v)) => match parse_id_exec(&v) {
            Some(id) => decode_response(line, id),
            None => decode_event(line),
        },
        Ok(None) => decode_event(line),
    }
}

} // verus!
