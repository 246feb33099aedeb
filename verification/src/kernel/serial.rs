//! The 16550 UART serial ports: how a port is set up and what bytes a string becomes on the
//! wire.
use vstd::prelude::*;

verus! {

/// The four legacy serial ports.
#[derive(Clone, Copy, PartialEq, Eq, Structural)]
pub enum Com {
    Com1,
    Com2,
    Com3,
    Com4,
}

impl Com {
    /// The first I/O port of the serial port.
    pub open spec fn spec_port(self) -> u16 {
        match self {
            Com::Com1 => 0x3f8u16,
            Com::Com2 => 0x2f8u16,
            Com::Com3 => 0x3e8u16,
            Com::Com4 => 0x2e8u16,
        }
    }

    /// The first I/O port of the serial port.
    #[verifier::when_used_as_spec(spec_port)]
    pub fn port(self) -> (r: u16)
        ensures
            r == self.spec_port(),
    {
        match self {
            Com::Com1 => 0x3f8,
            Com::Com2 => 0x2f8,
            Com::Com3 => 0x3e8,
            Com::Com4 => 0x2e8,
        }
    }
}

/// The writes that set up a serial port, in order, as (I/O port, byte): interrupts off,
/// divisor latch on, divisor 3 (38400 baud), 8 bits without parity and one stop bit, FIFOs
/// on and cleared with a 14-byte threshold, RTS and DSR set.
pub fn serial_init_writes(port: Com) -> (r: Vec<(u16, u8)>)
    ensures
        r@ == seq![
            ((port.spec_port() + 1) as u16, 0x00u8),
            ((port.spec_port() + 3) as u16, 0x80u8),
            (port.spec_port(), 0x03u8),
            ((port.spec_port() + 1) as u16, 0x00u8),
            ((port.spec_port() + 3) as u16, 0x03u8),
            ((port.spec_port() + 2) as u16, 0xc7u8),
            ((port.spec_port() + 4) as u16, 0x03u8),
        ],
{
    let p = port.port();
    let mut v: Vec<(u16, u8)> = Vec::new();
    v.push((p + 1, 0x00));
    v.push((p + 3, 0x80));
    v.push((p, 0x03));
    v.push((p + 1, 0x00));
    v.push((p + 3, 0x03));
    v.push((p + 2, 0xc7));
    v.push((p + 4, 0x03));
    assert(v@ =~= seq![
        ((port.spec_port() + 1) as u16, 0x00u8),
        ((port.spec_port() + 3) as u16, 0x80u8),
        (port.spec_port(), 0x03u8),
        ((port.spec_port() + 1) as u16, 0x00u8),
        ((port.spec_port() + 3) as u16, 0x03u8),
        ((port.spec_port() + 2) as u16, 0xc7u8),
        ((port.spec_port() + 4) as u16, 0x03u8),
    ]);
    v
}

/// The port that says whether the transmitter can take a byte: bit 5 of the line status.
pub fn line_status_port(port: Com) -> (r: u16)
    ensures
        r == port.spec_port() + 5,
{
    port.port() + 5
}

/// The transmitter can take a byte, by the line status `status`.
pub fn tx_ready(status: u8) -> (r: bool)
    ensures
        r == ((status / 0x20) % 2 == 1),
{
    (status / 0x20) % 2 == 1
}

/// The bytes that go on the wire for `s`: each line feed preceded by a carriage return.
pub open spec fn wire_bytes(s: Seq<u8>) -> Seq<u8>
    decreases s.len(),
{
    if s.len() == 0 {
        Seq::empty()
    } else {
        wire_bytes(s.drop_last()) + if s.last() == 0x0a { seq![0x0du8, 0x0au8] } else { seq![s.last()] }
    }
}

/// The bytes [`serial_write`]'s callers send for `s`, in order.
pub fn serial_write(s: &[u8]) -> (r: Vec<u8>)
    ensures
        r@ == wire_bytes(s@),
{
    let mut out: Vec<u8> = Vec::new();
    let mut i: usize = 0;
    while i < s.len()
        invariant
            i <= s@.len(),
            out@ == wire_bytes(s@.subrange(0, i as int)),
        decreases s@.len() - i,
    {
        let b = s[i];
        proof {
            assert(s@.subrange(0, i + 1).drop_last() =~= s@.subrange(0, i as int));
        }
        if b == 0x0a {
            out.push(0x0d);
        }
        out.push(b);
        proof {
            let t = s@.subrange(0, i + 1);
            assert(t.last() == b);
            if b == 0x0a {
                assert(out@ =~= wire_bytes(s@.subrange(0, i as int)) + seq![0x0du8, 0x0au8]);
            } else {
                assert(out@ =~= wire_bytes(s@.subrange(0, i as int)) + seq![b]);
            }
        }
        i = i + 1;
    }
    assert(s@.subrange(0, s@.len() as int) =~= s@);
    out
}

/// A serial port to write text to.
#[derive(Clone, Copy)]
pub struct Serial(pub Com);

} // verus!
