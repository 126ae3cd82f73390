//! The message envelope and its wire codec.
//!
//! Every frame on the wire carries one `MessageType` value encoded as a
//! tagged text form: a one-character tag followed by the variant's fields,
//! each field written as a fixed-width decimal character count and then the
//! field's characters themselves.  A decoder ignores anything after the
//! fields it knows, so frames carrying extra trailing data still decode.

use vstd::prelude::*;

verus! {

/// Width of the decimal character-count prefix in front of every field.
pub const LEN_WIDTH: usize = 20;

/// A message envelope: the closed set of frame kinds the relay understands.
#[derive(Debug, Clone)]
pub enum MessageType {
    /// Server-originated or relayed informational text.
    Notice { category: String, text: String },
    /// A user-originated message; `to` is advisory, delivery is broadcast.
    Chat { from: String, to: String, text: String },
    /// A request for the current display names.
    RosterRequest,
    /// The reply to a roster request.
    Roster { names: Vec<String> },
    /// An opaque control request, accepted but not acted upon.
    Command { raw: String },
}

/// The mathematical shape of an envelope: each text field as its
/// sequence of characters.
pub enum MessageView {
    Notice { category: Seq<char>, text: Seq<char> },
    Chat { from: Seq<char>, to: Seq<char>, text: Seq<char> },
    RosterRequest,
    Roster { names: Seq<Seq<char>> },
    Command { raw: Seq<char> },
}

pub open spec fn names_view(names: Seq<String>) -> Seq<Seq<char>> {
    names.map_values(|s: String| s@)
}

impl View for MessageType {
    type V = MessageView;

    open spec fn view(&self) -> MessageView {
        match self {
            MessageType::Notice { category, text } => MessageView::Notice {
                category: category@,
                text: text@,
            },
            MessageType::Chat { from, to, text } => MessageView::Chat {
                from: from@,
                to: to@,
                text: text@,
            },
            MessageType::RosterRequest => MessageView::RosterRequest,
            MessageType::Roster { names } => MessageView::Roster { names: names_view(names@) },
            MessageType::Command { raw } => MessageView::Command { raw: raw@ },
        }
    }
}

/// Why a frame failed to decode.
#[derive(Debug, Clone, Copy, PartialEq, Eq, Structural)]
pub enum DecodeError {
    /// The first character of the frame is not a known variant tag.
    UnknownTag,
    /// The frame is empty or its field structure is broken.
    Malformed,
}

pub open spec fn digit_char(d: nat) -> char {
    if d == 0 { '0' }
    else if d == 1 { '1' }
    else if d == 2 { '2' }
    else if d == 3 { '3' }
    else if d == 4 { '4' }
    else if d == 5 { '5' }
    else if d == 6 { '6' }
    else if d == 7 { '7' }
    else if d == 8 { '8' }
    else { '9' }
}

pub open spec fn digit_val(c: char) -> nat {
    if c == '0' { 0 }
    else if c == '1' { 1 }
    else if c == '2' { 2 }
    else if c == '3' { 3 }
    else if c == '4' { 4 }
    else if c == '5' { 5 }
    else if c == '6' { 6 }
    else if c == '7' { 7 }
    else if c == '8' { 8 }
    else if c == '9' { 9 }
    else { 10 }
}

pub open spec fn is_digit(c: char) -> bool {
    digit_val(c) < 10
}

/// `n` written as exactly `w` decimal digits, most significant first.
pub open spec fn dec_width(n: nat, w: nat) -> Seq<char>
    decreases w,
{
    if w == 0 {
        Seq::empty()
    } else {
        dec_width(n / 10, (w - 1) as nat).push(digit_char(n % 10))
    }
}

pub open spec fn pow10(w: nat) -> nat
    decreases w,
{
    if w == 0 {
        1
    } else {
        10 * pow10((w - 1) as nat)
    }
}

/// The fixed-width character-count prefix.
pub open spec fn enc_len(n: nat) -> Seq<char> {
    dec_width(n, LEN_WIDTH as nat)
}

/// One field: its character count, then its characters.
pub open spec fn enc_field(s: Seq<char>) -> Seq<char> {
    enc_len(s.len()) + s
}

/// A run of fields, in order.
pub open spec fn enc_fields(names: Seq<Seq<char>>) -> Seq<char>
    decreases names.len(),
{
    if names.len() == 0 {
        Seq::empty()
    } else {
        enc_fields(names.drop_last()) + enc_field(names.last())
    }
}

/// The wire text of an envelope.
pub open spec fn spec_encode(m: MessageView) -> Seq<char> {
    match m {
        MessageView::Notice { category, text } => seq!['N'] + enc_field(category) + enc_field(
            text,
        ),
        MessageView::Chat { from, to, text } => seq!['C'] + enc_field(from) + enc_field(to)
            + enc_field(text),
        MessageView::RosterRequest => seq!['Q'],
        MessageView::Roster { names } => seq!['R'] + enc_len(names.len()) + enc_fields(names),
        MessageView::Command { raw } => seq!['X'] + enc_field(raw),
    }
}

/// Whether every character count in the envelope fits the fixed-width
/// prefix.  Any value whose fields fit in memory satisfies this: the
/// prefix is wide enough for every `usize`.
pub open spec fn encodable(m: MessageView) -> bool {
    match m {
        MessageView::Notice { category, text } => category.len() < pow10(LEN_WIDTH as nat)
            && text.len() < pow10(LEN_WIDTH as nat),
        MessageView::Chat { from, to, text } => from.len() < pow10(LEN_WIDTH as nat) && to.len()
            < pow10(LEN_WIDTH as nat) && text.len() < pow10(LEN_WIDTH as nat),
        MessageView::RosterRequest => true,
        MessageView::Roster { names } => names.len() < pow10(LEN_WIDTH as nat) && (forall|i: int|
            0 <= i < names.len() ==> #[trigger] names[i].len() < pow10(LEN_WIDTH as nat)),
        MessageView::Command { raw } => raw.len() < pow10(LEN_WIDTH as nat),
    }
}

pub open spec fn all_digits(s: Seq<char>) -> bool {
    forall|i: int| 0 <= i < s.len() ==> is_digit(#[trigger] s[i])
}

/// The value of a run of decimal digits, most significant first.
pub open spec fn val_digits(s: Seq<char>) -> nat
    decreases s.len(),
{
    if s.len() == 0 {
        0
    } else {
        val_digits(s.drop_last()) * 10 + digit_val(s.last())
    }
}

/// Reads the fixed-width character count at the front of `s`; yields the
/// count and the remainder.
pub open spec fn parse_len(s: Seq<char>) -> Option<(nat, Seq<char>)> {
    if s.len() >= LEN_WIDTH && all_digits(s.take(LEN_WIDTH as int)) {
        Some((val_digits(s.take(LEN_WIDTH as int)), s.skip(LEN_WIDTH as int)))
    } else {
        None
    }
}

/// Reads one field at the front of `s`; yields the field and the remainder.
pub open spec fn parse_field(s: Seq<char>) -> Option<(Seq<char>, Seq<char>)> {
    match parse_len(s) {
        Option::None => Option::None,
        Option::Some((n, r)) => if n <= r.len() {
            Option::Some((r.take(n as int), r.skip(n as int)))
        } else {
            Option::None
        },
    }
}

/// Reads `count` fields at the front of `s`, in order.
pub open spec fn parse_fields(s: Seq<char>, count: nat) -> Option<(Seq<Seq<char>>, Seq<char>)>
    decreases count,
{
    if count == 0 {
        Option::Some((Seq::empty(), s))
    } else {
        match parse_field(s) {
            Option::None => Option::None,
            Option::Some((f, r)) => match parse_fields(r, (count - 1) as nat) {
                Option::None => Option::None,
                Option::Some((fs, r2)) => Option::Some((seq![f] + fs, r2)),
            },
        }
    }
}

pub open spec fn known_tag(c: char) -> bool {
    c == 'N' || c == 'C' || c == 'Q' || c == 'R' || c == 'X'
}

/// What a frame means.  `None` when the frame is empty, its tag is
/// unknown, or its field structure is broken; characters after the last
/// expected field are ignored.
pub open spec fn spec_decode(s: Seq<char>) -> Option<MessageView> {
    if s.len() == 0 {
        Option::None
    } else {
        let body = s.skip(1);
        if s[0] == 'N' {
            match parse_field(body) {
                Option::None => Option::None,
                Option::Some((category, r1)) => match parse_field(r1) {
                    Option::None => Option::None,
                    Option::Some((text, _)) => Option::Some(
                        MessageView::Notice { category, text },
                    ),
                },
            }
        } else if s[0] == 'C' {
            match parse_field(body) {
                Option::None => Option::None,
                Option::Some((from, r1)) => match parse_field(r1) {
                    Option::None => Option::None,
                    Option::Some((to, r2)) => match parse_field(r2) {
                        Option::None => Option::None,
                        Option::Some((text, _)) => Option::Some(
                            MessageView::Chat { from, to, text },
                        ),
                    },
                },
            }
        } else if s[0] == 'Q' {
            Option::Some(MessageView::RosterRequest)
        } else if s[0] == 'R' {
            match parse_len(body) {
                Option::None => Option::None,
                Option::Some((count, r1)) => match parse_fields(r1, count) {
                    Option::None => Option::None,
                    Option::Some((names, _)) => Option::Some(MessageView::Roster { names }),
                },
            }
        } else if s[0] == 'X' {
            match parse_field(body) {
                Option::None => Option::None,
                Option::Some((raw, _)) => Option::Some(MessageView::Command { raw }),
            }
        } else {
            Option::None
        }
    }
}

proof fn lemma_dec_width_shape(n: nat, w: nat)
    ensures
        dec_width(n, w).len() == w,
        all_digits(dec_width(n, w)),
    decreases w,
{
    if w > 0 {
        lemma_dec_width_shape(n / 10, (w - 1) as nat);
        let prefix = dec_width(n / 10, (w - 1) as nat);
        let whole = dec_width(n, w);
        assert(whole == prefix.push(digit_char(n % 10)));
        assert forall|i: int| 0 <= i < whole.len() implies is_digit(#[trigger] whole[i]) by {
            if i < w - 1 {
                assert(whole[i] == prefix[i]);
            } else {
                assert(whole[i] == digit_char(n % 10));
            }
        }
    }
}

proof fn lemma_pow10_positive(w: nat)
    ensures
        pow10(w) >= 1,
    decreases w,
{
    if w > 0 {
        lemma_pow10_positive((w - 1) as nat);
    }
}

proof fn lemma_pow10_mono(a: nat, b: nat)
    requires
        a <= b,
    ensures
        pow10(a) <= pow10(b),
    decreases b,
{
    if a < b {
        lemma_pow10_mono(a, (b - 1) as nat);
        lemma_pow10_positive((b - 1) as nat);
    }
}

proof fn lemma_dec_width_val(n: nat, w: nat)
    requires
        n < pow10(w),
    ensures
        val_digits(dec_width(n, w)) == n,
    decreases w,
{
    if w == 0 {
        assert(n == 0);
    } else {
        vstd::arithmetic::div_mod::lemma_fundamental_div_mod(n as int, 10);
        assert(n == 10 * (n / 10) + n % 10);
        assert(n / 10 < pow10((w - 1) as nat)) by {
            if n / 10 >= pow10((w - 1) as nat) {
                assert(10 * (n / 10) >= 10 * pow10((w - 1) as nat));
            }
        }
        lemma_dec_width_val(n / 10, (w - 1) as nat);
        let prefix = dec_width(n / 10, (w - 1) as nat);
        let whole = dec_width(n, w);
        lemma_dec_width_shape(n / 10, (w - 1) as nat);
        assert(whole.drop_last() =~= prefix);
        assert(whole.last() == digit_char(n % 10));
        assert(digit_val(digit_char(n % 10)) == n % 10);
    }
}

/// Every count that fits a `usize` fits the fixed-width prefix.
proof fn lemma_usize_fits_len_width()
    ensures
        usize::MAX < pow10(LEN_WIDTH as nat),
        pow10(LEN_WIDTH as nat) == 100000000000000000000,
        pow10(LEN_WIDTH as nat) < u128::MAX,
{
    reveal_with_fuel(pow10, 21);
    assert(pow10(LEN_WIDTH as nat) == 100000000000000000000);
}

proof fn lemma_parse_len_enc(n: nat, tail: Seq<char>)
    requires
        n < pow10(LEN_WIDTH as nat),
    ensures
        parse_len(enc_len(n) + tail) == Some((n, tail)),
{
    let s = enc_len(n) + tail;
    lemma_dec_width_shape(n, LEN_WIDTH as nat);
    assert(s.take(LEN_WIDTH as int) =~= enc_len(n));
    lemma_dec_width_val(n, LEN_WIDTH as nat);
    assert(s.skip(LEN_WIDTH as int) =~= tail);
}

proof fn lemma_parse_field_enc(f: Seq<char>, tail: Seq<char>)
    requires
        f.len() < pow10(LEN_WIDTH as nat),
    ensures
        parse_field(enc_field(f) + tail) == Some((f, tail)),
{
    let s = enc_field(f) + tail;
    assert(s =~= enc_len(f.len()) + (f + tail));
    lemma_parse_len_enc(f.len(), f + tail);
    let r = (f + tail);
    assert(r.take(f.len() as int) =~= f);
    assert(r.skip(f.len() as int) =~= tail);
}

proof fn lemma_enc_fields_first(names: Seq<Seq<char>>)
    requires
        names.len() > 0,
    ensures
        enc_fields(names) == enc_field(names[0]) + enc_fields(names.drop_first()),
    decreases names.len(),
{
    if names.len() == 1 {
        assert(names.drop_last() =~= Seq::<Seq<char>>::empty());
        assert(names.drop_first() =~= Seq::<Seq<char>>::empty());
        assert(enc_fields(names) == enc_fields(names.drop_last()) + enc_field(names.last()));
        assert(Seq::<char>::empty() + enc_field(names[0]) =~= enc_field(names[0]) + Seq::<
            char,
        >::empty());
        assert(enc_fields(names) =~= enc_field(names[0]) + enc_fields(names.drop_first()));
    } else {
        let dl = names.drop_last();
        lemma_enc_fields_first(dl);
        let ndf = names.drop_first();
        assert(ndf.drop_last() =~= dl.drop_first());
        assert(ndf.last() == names.last());
        assert(dl[0] == names[0]);
        assert(enc_fields(ndf) == enc_fields(dl.drop_first()) + enc_field(names.last()));
        assert(enc_fields(names) == (enc_field(names[0]) + enc_fields(dl.drop_first()))
            + enc_field(names.last()));
        assert((enc_field(names[0]) + enc_fields(dl.drop_first())) + enc_field(names.last())
            =~= enc_field(names[0]) + (enc_fields(dl.drop_first()) + enc_field(names.last())));
    }
}

proof fn lemma_parse_fields_enc(names: Seq<Seq<char>>, tail: Seq<char>)
    requires
        forall|i: int| 0 <= i < names.len() ==> #[trigger] names[i].len() < pow10(
            LEN_WIDTH as nat,
        ),
    ensures
        parse_fields(enc_fields(names) + tail, names.len()) == Some((names, tail)),
    decreases names.len(),
{
    if names.len() == 0 {
        assert(enc_fields(names) + tail =~= tail);
        assert(names =~= Seq::<Seq<char>>::empty());
    } else {
        lemma_enc_fields_first(names);
        let df = names.drop_first();
        let s = enc_fields(names) + tail;
        assert(s =~= enc_field(names[0]) + (enc_fields(df) + tail));
        lemma_parse_field_enc(names[0], enc_fields(df) + tail);
        assert(forall|i: int| 0 <= i < df.len() ==> #[trigger] df[i].len() < pow10(
            LEN_WIDTH as nat,
        ));
        lemma_parse_fields_enc(df, tail);
        assert(seq![names[0]] + df =~= names);
    }
}

/// Law: decoding an encoded envelope yields the envelope back, for every
/// envelope whose character counts fit the fixed-width prefix — which is
/// every envelope an executable value can hold.
pub proof fn lemma_round_trip(m: MessageView)
    requires
        encodable(m),
    ensures
        spec_decode(spec_encode(m)) == Some(m),
{
    let s = spec_encode(m);
    match m {
        MessageView::Notice { category, text } => {
            assert(s[0] == 'N');
            assert(s.skip(1) =~= enc_field(category) + enc_field(text));
            lemma_parse_field_enc(category, enc_field(text));
            assert(enc_field(text) =~= enc_field(text) + Seq::<char>::empty());
            lemma_parse_field_enc(text, Seq::<char>::empty());
        },
        MessageView::Chat { from, to, text } => {
            assert(s[0] == 'C');
            assert(s.skip(1) =~= enc_field(from) + (enc_field(to) + enc_field(text)));
            lemma_parse_field_enc(from, enc_field(to) + enc_field(text));
            lemma_parse_field_enc(to, enc_field(text));
            assert(enc_field(text) =~= enc_field(text) + Seq::<char>::empty());
            lemma_parse_field_enc(text, Seq::<char>::empty());
        },
        MessageView::RosterRequest => {
            assert(s[0] == 'Q');
        },
        MessageView::Roster { names } => {
            assert(s[0] == 'R');
            assert(s.skip(1) =~= enc_len(names.len()) + enc_fields(names));
            lemma_parse_len_enc(names.len(), enc_fields(names));
            assert(enc_fields(names) =~= enc_fields(names) + Seq::<char>::empty());
            lemma_parse_fields_enc(names, Seq::<char>::empty());
        },
        MessageView::Command { raw } => {
            assert(s[0] == 'X');
            assert(s.skip(1) =~= enc_field(raw) + Seq::<char>::empty());
            lemma_parse_field_enc(raw, Seq::<char>::empty());
        },
    }
}

fn digit_str(d: u8) -> (r: &'static str)
    requires
        d < 10,
    ensures
        r@ == seq![digit_char(d as nat)],
{
    proof {
        reveal_strlit("0");
        reveal_strlit("1");
        reveal_strlit("2");
        reveal_strlit("3");
        reveal_strlit("4");
        reveal_strlit("5");
        reveal_strlit("6");
        reveal_strlit("7");
        reveal_strlit("8");
        reveal_strlit("9");
    }
    let r: &'static str = if d == 0 { "0" }
    else if d == 1 { "1" }
    else if d == 2 { "2" }
    else if d == 3 { "3" }
    else if d == 4 { "4" }
    else if d == 5 { "5" }
    else if d == 6 { "6" }
    else if d == 7 { "7" }
    else if d == 8 { "8" }
    else { "9" };
    proof {
        assert(r@ =~= seq![digit_char(d as nat)]);
    }
    r
}

fn dec_width_string(n: usize, w: usize) -> (r: String)
    ensures
        r@ == dec_width(n as nat, w as nat),
    decreases w,
{
    if w == 0 {
        String::new()
    } else {
        let mut s = dec_width_string(n / 10, w - 1);
        let d: u8 = (n % 10) as u8;
        s.append(digit_str(d));
        proof {
            assert(dec_width(n as nat, w as nat) == dec_width(n as nat / 10, (w - 1) as nat).push(
                digit_char(n as nat % 10),
            ));
            assert(s@ =~= dec_width(n as nat / 10, (w - 1) as nat).push(
                digit_char(n as nat % 10),
            ));
        }
        s
    }
}

/// Appends the wire form of one field: its character count, then its
/// characters.
fn push_field(out: &mut String, f: &str)
    ensures
        final(out)@ == old(out)@ + enc_field(f@),
        f@.len() < pow10(LEN_WIDTH as nat),
{
    proof {
        lemma_usize_fits_len_width();
    }
    let count = f.unicode_len();
    let prefix = dec_width_string(count, LEN_WIDTH);
    out.append(prefix.as_str());
    out.append(f);
    proof {
        assert(final(out)@ =~= old(out)@ + enc_field(f@));
    }
}

/// Encodes an envelope into its wire text.  Total: every envelope has a
/// wire form, and it decodes back to the same envelope.
pub fn to_json(msg: &MessageType) -> (r: String)
    ensures
        r@ == spec_encode(msg@),
        encodable(msg@),
{
    proof {
        lemma_usize_fits_len_width();
        reveal_strlit("N");
        reveal_strlit("C");
        reveal_strlit("Q");
        reveal_strlit("R");
        reveal_strlit("X");
    }
    match msg {
        MessageType::Notice { category, text } => {
            let mut out = String::from_str("N");
            proof {
                assert(out@ =~= seq!['N']);
            }
            push_field(&mut out, category.as_str());
            push_field(&mut out, text.as_str());
            proof {
                assert(out@ =~= seq!['N'] + enc_field(category@) + enc_field(text@));
            }
            out
        },
        MessageType::Chat { from, to, text } => {
            let mut out = String::from_str("C");
            proof {
                assert(out@ =~= seq!['C']);
            }
            push_field(&mut out, from.as_str());
            push_field(&mut out, to.as_str());
            push_field(&mut out, text.as_str());
            proof {
                assert(out@ =~= seq!['C'] + enc_field(from@) + enc_field(to@) + enc_field(
                    text@,
                ));
            }
            out
        },
        MessageType::RosterRequest => {
            let out = String::from_str("Q");
            proof {
                assert(out@ =~= seq!['Q']);
            }
            out
        },
        MessageType::Roster { names } => {
            let mut out = String::from_str("R");
            let count = names.len();
            let prefix = dec_width_string(count, LEN_WIDTH);
            out.append(prefix.as_str());
            let ghost whole: Seq<Seq<char>> = names_view(names@);
            proof {
                assert(out@ =~= seq!['R'] + enc_len(count as nat));
                assert(whole.take(0) =~= Seq::<Seq<char>>::empty());
            }
            let mut i: usize = 0;
            while i < count
                invariant
                    count == names.len(),
                    whole == names_view(names@),
                    0 <= i <= count,
                    out@ == seq!['R'] + enc_len(count as nat) + enc_fields(whole.take(i as int)),
                    forall|j: int| 0 <= j < i ==> #[trigger] whole[j].len() < pow10(
                        LEN_WIDTH as nat,
                    ),
                decreases count - i,
            {
                push_field(&mut out, names[i].as_str());
                proof {
                    assert(whole.take(i + 1).drop_last() =~= whole.take(i as int));
                    assert(whole.take(i + 1).last() == names@[i as int]@);
                    assert(enc_fields(whole.take(i + 1)) == enc_fields(whole.take(i as int))
                        + enc_field(names@[i as int]@));
                    assert(out@ =~= seq!['R'] + enc_len(count as nat) + enc_fields(
                        whole.take(i + 1),
                    ));
                }
                i = i + 1;
            }
            proof {
                assert(whole.take(count as int) =~= whole);
            }
            out
        },
        MessageType::Command { raw } => {
            let mut out = String::from_str("X");
            proof {
                assert(out@ =~= seq!['X']);
            }
            push_field(&mut out, raw.as_str());
            proof {
                assert(out@ =~= seq!['X'] + enc_field(raw@));
            }
            out
        },
    }
}

/// Character-by-character text comparison, so that equality of envelopes
/// can be decided without leaning on any unspecified impl.
pub fn str_eq(a: &str, b: &str) -> (r: bool)
    ensures
        r == (a@ == b@),
{
    let na = a.unicode_len();
    let nb = b.unicode_len();
    if na != nb {
        return false;
    }
    let mut i: usize = 0;
    while i < na
        invariant
            na as nat == a@.len(),
            nb as nat == b@.len(),
            na == nb,
            0 <= i <= na,
            forall|j: int| 0 <= j < i ==> a@[j] == b@[j],
        decreases na - i,
    {
        let ca = a.get_char(i);
        let cb = b.get_char(i);
        if ca != cb {
            return false;
        }
        i = i + 1;
    }
    proof {
        assert(a@ =~= b@);
    }
    true
}

fn string_vec_eq(a: &Vec<String>, b: &Vec<String>) -> (r: bool)
    ensures
        r == (names_view(a@) == names_view(b@)),
{
    if a.len() != b.len() {
        proof {
            assert(names_view(a@).len() != names_view(b@).len());
        }
        return false;
    }
    let mut i: usize = 0;
    while i < a.len()
        invariant
            a@.len() == b@.len(),
            0 <= i <= a@.len(),
            forall|j: int| 0 <= j < i ==> #[trigger] names_view(a@)[j] == names_view(b@)[j],
        decreases a@.len() - i,
    {
        if !str_eq(a[i].as_str(), b[i].as_str()) {
            proof {
                assert(names_view(a@)[i as int] != names_view(b@)[i as int]);
            }
            return false;
        }
        i = i + 1;
    }
    proof {
        assert(names_view(a@) =~= names_view(b@));
    }
    true
}

impl PartialEq for MessageType {
    fn eq(&self, other: &Self) -> (r: bool) {
        match (self, other) {
            (
                MessageType::Notice { category: c1, text: t1 },
                MessageType::Notice { category: c2, text: t2 },
            ) => str_eq(c1.as_str(), c2.as_str()) && str_eq(t1.as_str(), t2.as_str()),
            (
                MessageType::Chat { from: f1, to: o1, text: t1 },
                MessageType::Chat { from: f2, to: o2, text: t2 },
            ) => str_eq(f1.as_str(), f2.as_str()) && str_eq(o1.as_str(), o2.as_str()) && str_eq(
                t1.as_str(),
                t2.as_str(),
            ),
            (MessageType::RosterRequest, MessageType::RosterRequest) => true,
            (MessageType::Roster { names: n1 }, MessageType::Roster { names: n2 }) => string_vec_eq(
                n1,
                n2,
            ),
            (MessageType::Command { raw: r1 }, MessageType::Command { raw: r2 }) => str_eq(
                r1.as_str(),
                r2.as_str(),
            ),
            _ => false,
        }
    }
}

impl vstd::std_specs::cmp::PartialEqSpecImpl for MessageType {
    open spec fn obeys_eq_spec() -> bool {
        true
    }

    open spec fn eq_spec(&self, other: &MessageType) -> bool {
        self@ == other@
    }
}

fn char_digit(c: char) -> (r: u8)
    ensures
        r as nat == digit_val(c),
{
    if c == '0' { 0 }
    else if c == '1' { 1 }
    else if c == '2' { 2 }
    else if c == '3' { 3 }
    else if c == '4' { 4 }
    else if c == '5' { 5 }
    else if c == '6' { 6 }
    else if c == '7' { 7 }
    else if c == '8' { 8 }
    else if c == '9' { 9 }
    else { 10 }
}

/// Reads the fixed-width character count that starts at position `i`.
fn read_len(s: &str, i: usize) -> (r: Option<(u128, usize)>)
    requires
        i <= s@.len(),
    ensures
        match r {
            Some((val, j)) => {
                &&& parse_len(s@.skip(i as int)) == Some((val as nat, s@.skip(j as int)))
                &&& j == i + LEN_WIDTH
                &&& j <= s@.len()
                &&& (val as nat) < pow10(LEN_WIDTH as nat)
            },
            None => parse_len(s@.skip(i as int)) is None,
        },
{
    proof {
        lemma_usize_fits_len_width();
    }
    let n = s.unicode_len();
    if n - i < LEN_WIDTH {
        proof {
            assert(s@.skip(i as int).len() < LEN_WIDTH);
        }
        return None;
    }
    let ghost window = s@.skip(i as int).take(LEN_WIDTH as int);
    proof {
        assert(window =~= s@.subrange(i as int, i + LEN_WIDTH));
    }
    let mut val: u128 = 0;
    let mut k: usize = 0;
    while k < LEN_WIDTH
        invariant
            n as nat == s@.len(),
            i + LEN_WIDTH <= n,
            window == s@.subrange(i as int, i + LEN_WIDTH),
            0 <= k <= LEN_WIDTH,
            val as nat == val_digits(window.take(k as int)),
            forall|j: int| 0 <= j < k ==> is_digit(#[trigger] window[j]),
            pow10(LEN_WIDTH as nat) < u128::MAX,
            (val as nat) < pow10(k as nat),
        decreases LEN_WIDTH - k,
    {
        let c = s.get_char(i + k);
        let d = char_digit(c);
        proof {
            assert(c == window[k as int]);
        }
        if d >= 10 {
            proof {
                assert(!is_digit(window[k as int]));
                assert(s@.skip(i as int).take(LEN_WIDTH as int) =~= window);
                assert(!is_digit(s@.skip(i as int).take(LEN_WIDTH as int)[k as int]));
            }
            return None;
        }
        proof {
            assert(window.take(k + 1).drop_last() =~= window.take(k as int));
            assert(window.take(k + 1).last() == window[k as int]);
            assert(val_digits(window.take(k + 1)) == val as nat * 10 + d as nat);
            assert(pow10((k + 1) as nat) == 10 * pow10(k as nat));
            lemma_pow10_mono((k + 1) as nat, LEN_WIDTH as nat);
            assert((val as nat * 10 + d as nat) < pow10((k + 1) as nat));
        }
        val = val * 10 + (d as u128);
        k = k + 1;
    }
    proof {
        assert(window.take(LEN_WIDTH as int) =~= window);
        assert(all_digits(s@.skip(i as int).take(LEN_WIDTH as int)));
        assert(s@.skip(i as int).skip(LEN_WIDTH as int) =~= s@.skip(i + LEN_WIDTH));
    }
    Some((val, i + LEN_WIDTH))
}

/// Reads one length-prefixed field that starts at position `i`.
fn read_field(s: &str, i: usize) -> (r: Option<(String, usize)>)
    requires
        i <= s@.len(),
    ensures
        match r {
            Some((f, j)) => {
                &&& parse_field(s@.skip(i as int)) == Some((f@, s@.skip(j as int)))
                &&& i <= j <= s@.len()
            },
            None => parse_field(s@.skip(i as int)) is None,
        },
{
    match read_len(s, i) {
        None => None,
        Some((val, j)) => {
            let n = s.unicode_len();
            if val > (n - j) as u128 {
                proof {
                    assert(s@.skip(j as int).len() == n - j);
                }
                None
            } else {
                let m = val as usize;
                let sub = s.substring_char(j, j + m);
                let f = String::from_str(sub);
                proof {
                    let rem = s@.skip(j as int);
                    assert(rem.take(m as int) =~= s@.subrange(j as int, j + m));
                    assert(rem.skip(m as int) =~= s@.skip(j + m));
                }
                Some((f, j + m))
            }
        },
    }
}

proof fn lemma_parse_fields_needs(s: Seq<char>, count: nat)
    requires
        count * LEN_WIDTH > s.len(),
    ensures
        parse_fields(s, count) is None,
    decreases count,
{
    if count > 0 {
        match parse_field(s) {
            Option::None => {},
            Option::Some((f, r)) => {
                assert(r.len() <= s.len() - LEN_WIDTH);
                assert((count - 1) * LEN_WIDTH == count * LEN_WIDTH - LEN_WIDTH) by (
                nonlinear_arith);
                lemma_parse_fields_needs(r, (count - 1) as nat);
            },
        }
    }
}

/// Decodes one wire frame.  Fails only on an empty or structurally broken
/// frame (`Malformed`) or a frame whose first character is no known tag
/// (`UnknownTag`); characters after the last expected field are ignored.
#[verifier::loop_isolation(false)]
pub fn parse_message(s: &str) -> (r: Result<MessageType, DecodeError>)
    ensures
        r is Ok <==> spec_decode(s@) is Some,
        r matches Ok(m) ==> spec_decode(s@) == Some(m@),
        r == Result::<MessageType, DecodeError>::Err(DecodeError::UnknownTag) <==> (s@.len() > 0
            && !known_tag(s@[0])),
{
    proof {
        reveal_strlit("N");
        reveal_strlit("C");
        reveal_strlit("Q");
        reveal_strlit("R");
        reveal_strlit("X");
    }
    let n = s.unicode_len();
    if n == 0 {
        return Err(DecodeError::Malformed);
    }
    let tag = s.get_char(0);
    if tag == 'N' {
        match read_field(s, 1) {
            None => Err(DecodeError::Malformed),
            Some((category, j)) => match read_field(s, j) {
                None => Err(DecodeError::Malformed),
                Some((text, _)) => Ok(MessageType::Notice { category, text }),
            },
        }
    } else if tag == 'C' {
        match read_field(s, 1) {
            None => Err(DecodeError::Malformed),
            Some((from, j)) => match read_field(s, j) {
                None => Err(DecodeError::Malformed),
                Some((to, j2)) => match read_field(s, j2) {
                    None => Err(DecodeError::Malformed),
                    Some((text, _)) => Ok(MessageType::Chat { from, to, text }),
                },
            },
        }
    } else if tag == 'Q' {
        Ok(MessageType::RosterRequest)
    } else if tag == 'R' {
        match read_len(s, 1) {
            None => Err(DecodeError::Malformed),
            Some((count, start)) => {
                proof {
                    lemma_usize_fits_len_width();
                    assert((count as nat) < 100000000000000000000);
                    assert((count as nat) * 20 <= 2000000000000000000000) by (nonlinear_arith)
                        requires
                            (count as nat) < 100000000000000000000,
                    ;
                }
                if count * (LEN_WIDTH as u128) > (n - start) as u128 {
                    proof {
                        assert(s@.skip(start as int).len() == n - start);
                        lemma_parse_fields_needs(s@.skip(start as int), count as nat);
                    }
                    return Err(DecodeError::Malformed);
                }
                proof {
                    assert(count as nat <= count as nat * (LEN_WIDTH as nat));
                    assert(count <= (n - start) as u128);
                }
                let total: usize = count as usize;
                let mut names: Vec<String> = Vec::new();
                let mut pos: usize = start;
                let mut k: usize = 0;
                proof {
                    assert(names_view(names@) =~= Seq::<Seq<char>>::empty());
                }
                while k < total
                    invariant
                        0 <= k <= total,
                        pos <= s@.len(),
                        names_view(names@).len() == k,
                        parse_fields(s@.skip(start as int), total as nat) == (match parse_fields(
                            s@.skip(pos as int),
                            (total - k) as nat,
                        ) {
                            Option::Some((fs, rem)) => Option::Some(
                                (names_view(names@) + fs, rem),
                            ),
                            Option::None => Option::None::<(Seq<Seq<char>>, Seq<char>)>,
                        }),
                    decreases total - k,
                {
                    match read_field(s, pos) {
                        None => {
                            proof {
                                assert(parse_fields(s@.skip(pos as int), (total - k) as nat)
                                    is None);
                                assert(parse_fields(s@.skip(start as int), total as nat)
                                    is None);
                                assert(total as nat == count as nat);
                                assert(spec_decode(s@) is None);
                            }
                            return Err(DecodeError::Malformed);
                        },
                        Some((f, next)) => {
                            proof {
                                let ghost old_names = names_view(names@);
                                let c: nat = (total - k) as nat;
                                assert(parse_fields(s@.skip(pos as int), c) == (
                                match parse_fields(s@.skip(next as int), (c - 1) as nat) {
                                    Option::Some((fs, rem)) => Option::Some(
                                        (seq![f@] + fs, rem),
                                    ),
                                    Option::None => Option::None::<(Seq<Seq<char>>, Seq<char>)>,
                                }));
                                assert(names_view(names@.push(f)) =~= old_names + seq![f@]);
                                if let Option::Some((fs, rem)) = parse_fields(
                                    s@.skip(next as int),
                                    (c - 1) as nat,
                                ) {
                                    assert((old_names + seq![f@]) + fs =~= old_names + (seq![f@]
                                        + fs));
                                }
                            }
                            names.push(f);
                            pos = next;
                            k = k + 1;
                        },
                    }
                }
                proof {
                    assert(parse_fields(s@.skip(pos as int), 0) == Option::Some(
                        (Seq::<Seq<char>>::empty(), s@.skip(pos as int)),
                    ));
                    assert(names_view(names@) + Seq::<Seq<char>>::empty() =~= names_view(
                        names@,
                    ));
                }
                Ok(MessageType::Roster { names })
            },
        }
    } else if tag == 'X' {
        match read_field(s, 1) {
            None => Err(DecodeError::Malformed),
            Some((raw, _)) => Ok(MessageType::Command { raw }),
        }
    } else {
        Err(DecodeError::UnknownTag)
    }
}

} // verus!
