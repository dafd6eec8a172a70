//! Wire formats of the two endpoints.
//!
//! Inbound: a heartbeat registers only when the whole payload equals the
//! marker text `Heartbeat!`, byte for byte; anything else is ignored.
//!
//! Outbound: a membership snapshot is one textual message holding the agent
//! addresses as a JSON array of strings, in the order given. A quote,
//! backslash or control byte inside an address is escaped so that the message
//! stays well formed whatever bytes an address holds.

use vstd::prelude::*;

verus! {

/// `"` (starts and ends a rendered address)
pub const QUOTE: u8 = 34;

/// `\` (starts every escape)
pub const BACKSLASH: u8 = 92;

/// `[` (opens the snapshot message)
pub const OPEN_BRACKET: u8 = 91;

/// `]` (closes the snapshot message)
pub const CLOSE_BRACKET: u8 = 93;

/// `,` (separates rendered addresses)
pub const COMMA: u8 = 44;

/// The exact bytes of the marker text `Heartbeat!`.
pub open spec fn heartbeat_marker() -> Seq<u8> {
    seq![72u8, 101u8, 97u8, 114u8, 116u8, 98u8, 101u8, 97u8, 116u8, 33u8]
}

/// The lower-case hexadecimal digit for a value below 16.
pub open spec fn hex_digit(n: u8) -> u8 {
    if n < 10 {
        (48 + n) as u8
    } else {
        (87 + n) as u8
    }
}

/// How one byte of an address appears inside its quotes: quote and
/// backslash get a backslash escape, a control byte becomes `\u00` and two
/// hex digits, every other byte stands as itself.
pub open spec fn escape_byte(b: u8) -> Seq<u8> {
    if b == QUOTE {
        seq![BACKSLASH, QUOTE]
    } else if b == BACKSLASH {
        seq![BACKSLASH, BACKSLASH]
    } else if b < 32 {
        seq![BACKSLASH, 117u8, 48u8, 48u8, hex_digit(b / 16), hex_digit(b % 16)]
    } else {
        seq![b]
    }
}

/// A whole address with every byte escaped.
pub open spec fn escape_bytes(s: Seq<u8>) -> Seq<u8>
    decreases s.len(),
{
    if s.len() == 0 {
        Seq::empty()
    } else {
        escape_bytes(s.drop_last()) + escape_byte(s.last())
    }
}

/// One address as it stands in the message: escaped, in quotes.
pub open spec fn quoted(s: Seq<u8>) -> Seq<u8> {
    seq![QUOTE] + escape_bytes(s) + seq![QUOTE]
}

/// The quoted addresses joined with commas.
pub open spec fn joined(items: Seq<Seq<u8>>) -> Seq<u8>
    decreases items.len(),
{
    if items.len() == 0 {
        Seq::empty()
    } else if items.len() == 1 {
        quoted(items[0])
    } else {
        joined(items.drop_last()) + seq![COMMA] + quoted(items.last())
    }
}

/// The whole snapshot message for a list of addresses.
pub open spec fn rendered(items: Seq<Seq<u8>>) -> Seq<u8> {
    seq![OPEN_BRACKET] + joined(items) + seq![CLOSE_BRACKET]
}

/// Appends the escape of one byte.
fn push_escaped(out: &mut Vec<u8>, b: u8)
    ensures
        final(out)@ == old(out)@ + escape_byte(b),
{
    if b == QUOTE {
        out.push(BACKSLASH);
        out.push(QUOTE);
    } else if b == BACKSLASH {
        out.push(BACKSLASH);
        out.push(BACKSLASH);
    } else if b < 32 {
        out.push(BACKSLASH);
        out.push(117);
        out.push(48);
        out.push(48);
        let hi = b / 16;
        let lo = b % 16;
        out.push(if hi < 10 { 48 + hi } else { 87 + hi });
        out.push(if lo < 10 { 48 + lo } else { 87 + lo });
    } else {
        out.push(b);
    }
    proof {
        assert(final(out)@ =~= old(out)@ + escape_byte(b));
    }
}

/// Appends one address, escaped and quoted.
fn push_quoted(out: &mut Vec<u8>, s: &Vec<u8>)
    ensures
        final(out)@ == old(out)@ + quoted(s@),
{
    out.push(QUOTE);
    let ghost opened = out@;
    let mut i: usize = 0;
    while i < s.len()
        invariant
            i <= s.len(),
            out@ == opened + escape_bytes(s@.take(i as int)),
        decreases s.len() - i,
    {
        proof {
            assert(s@.take(i + 1).drop_last() =~= s@.take(i as int));
            assert(s@.take(i + 1).last() == s@[i as int]);
        }
        push_escaped(out, s[i]);
        i = i + 1;
    }
    proof {
        assert(s@.take(s@.len() as int) =~= s@);
    }
    out.push(QUOTE);
    proof {
        assert(final(out)@ =~= old(out)@ + quoted(s@));
    }
}

/// Renders the snapshot message for the given address list, in the order
/// given.
pub fn render_snapshot(items: &Vec<Vec<u8>>) -> (r: Vec<u8>)
    ensures
        r@ == rendered(crate::order::views_of(items@)),
{
    let ghost views = crate::order::views_of(items@);
    let mut out: Vec<u8> = Vec::new();
    out.push(OPEN_BRACKET);
    let mut i: usize = 0;
    while i < items.len()
        invariant
            i <= items.len(),
            views == crate::order::views_of(items@),
            views.len() == items@.len(),
            out@ == seq![OPEN_BRACKET] + joined(views.take(i as int)),
        decreases items.len() - i,
    {
        proof {
            assert(views.take(i + 1).drop_last() =~= views.take(i as int));
            assert(views.take(i + 1).last() == views[i as int]);
            assert(views[i as int] == items@[i as int]@);
        }
        if i > 0 {
            out.push(COMMA);
        }
        push_quoted(&mut out, &items[i]);
        proof {
            if i == 0 {
                assert(joined(views.take(1)) =~= quoted(views[0]));
                assert(out@ =~= seq![OPEN_BRACKET] + joined(views.take(1)));
            } else {
                assert(out@ =~= seq![OPEN_BRACKET] + joined(views.take(i + 1)));
            }
        }
        i = i + 1;
    }
    proof {
        assert(views.take(views.len() as int) =~= views);
    }
    out.push(CLOSE_BRACKET);
    proof {
        assert(out@ =~= rendered(views));
    }
    out
}

/// Builds the marker text `Heartbeat!` as bytes.
fn marker_bytes() -> (r: Vec<u8>)
    ensures
        r@ == heartbeat_marker(),
{
    let mut m: Vec<u8> = Vec::new();
    m.push(72);
    m.push(101);
    m.push(97);
    m.push(114);
    m.push(116);
    m.push(98);
    m.push(101);
    m.push(97);
    m.push(116);
    m.push(33);
    proof {
        assert(m@ =~= heartbeat_marker());
    }
    m
}

/// Decides whether a heartbeat payload registers: true exactly when the
/// payload equals the marker text, byte for byte. Wrong case, added
/// whitespace or any other difference leaves the sender unregistered.
pub fn is_heartbeat_payload(msg: &Vec<u8>) -> (r: bool)
    ensures
        r == (msg@ == heartbeat_marker()),
{
    let marker = marker_bytes();
    if msg.len() != marker.len() {
        proof {
            assert(msg@ != heartbeat_marker());
        }
        return false;
    }
    let mut i: usize = 0;
    while i < marker.len()
        invariant
            i <= marker.len(),
            msg@.len() == marker@.len(),
            marker@ == heartbeat_marker(),
            forall|j: int| 0 <= j < i ==> msg@[j] == marker@[j],
        decreases marker.len() - i,
    {
        if msg[i] != marker[i] {
            proof {
                assert(msg@ != heartbeat_marker());
            }
            return false;
        }
        i = i + 1;
    }
    proof {
        assert(msg@ =~= heartbeat_marker());
    }
    true
}

} // verus!
