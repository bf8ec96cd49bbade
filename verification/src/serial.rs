//! Simple serial driver for logging purposes: which port writes each byte
//! takes. The port I/O itself is the caller's.
use vstd::prelude::*;

verus! {

/// The byte the loopback test sends, and expects back.
pub const LOOPBACK_TEST_BYTE: u8 = 0xae;

/// Possible errors serial driver could encounter
#[derive(Debug, Clone, Copy, PartialEq, Eq, Structural)]
pub enum SerialError {
    /// Serial port isn't available/isn't working
    FaultySerialPort,
}

/// Serial port addresses
#[derive(Debug, Clone, Copy, PartialEq, Eq, Structural)]
pub enum SerialPort {
    /// COM1
    Comm1,
    /// COM2
    Comm2,
    /// COM3
    Comm3,
    /// COM4
    Comm4,
    /// COM5
    Comm5,
    /// COM6
    Comm6,
    /// COM7
    Comm7,
    /// COM8
    Comm8,
}

/// The I/O port of serial port `p`.
pub open spec fn port_address(p: SerialPort) -> u16 {
    match p {
        SerialPort::Comm1 => 0x3f8u16,
        SerialPort::Comm2 => 0x2f8u16,
        SerialPort::Comm3 => 0x3e8u16,
        SerialPort::Comm4 => 0x2e8u16,
        SerialPort::Comm5 => 0x5f8u16,
        SerialPort::Comm6 => 0x4f8u16,
        SerialPort::Comm7 => 0x5e8u16,
        SerialPort::Comm8 => 0x4e8u16,
    }
}

/// The port writes that send `byte` through port `p`: a newline is preceded
/// by a carriage return.
pub open spec fn byte_writes(p: SerialPort, byte: u8) -> Seq<(u16, u8)> {
    if byte == 10 {
        seq![(port_address(p), 13u8), (port_address(p), byte)]
    } else {
        seq![(port_address(p), byte)]
    }
}

/// The port writes that send `byte` through each of the working ports from
/// the first `n`.
pub open spec fn all_byte_writes(ports: Seq<Option<SerialPort>>, n: int, byte: u8) -> Seq<(u16, u8)>
    decreases n,
{
    if n <= 0 {
        Seq::empty()
    } else {
        all_byte_writes(ports, n - 1, byte) + match ports[n - 1] {
            Some(p) => byte_writes(p, byte),
            None => Seq::empty(),
        }
    }
}

impl SerialPort {
    /// The port's I/O address.
    pub fn address(self) -> (r: u16)
        ensures
            r == port_address(self),
    {
        match self {
            SerialPort::Comm1 => 0x3f8,
            SerialPort::Comm2 => 0x2f8,
            SerialPort::Comm3 => 0x3e8,
            SerialPort::Comm4 => 0x2e8,
            SerialPort::Comm5 => 0x5f8,
            SerialPort::Comm6 => 0x4f8,
            SerialPort::Comm7 => 0x5e8,
            SerialPort::Comm8 => 0x4e8,
        }
    }

    /// The port writes that set the port up and start its loopback test:
    /// interrupts off, 38400 baud, 8 bits with no parity and one stop bit,
    /// FIFO on, then loopback mode and the test byte.
    pub fn init_writes(self) -> (r: Vec<(u16, u8)>)
        ensures
            ({
                let a = port_address(self) as int;
                r@ == seq![
                    ((a + 1) as u16, 0x00u8),
                    ((a + 3) as u16, 0x80u8),
                    (a as u16, 0x03u8),
                    ((a + 1) as u16, 0x00u8),
                    ((a + 3) as u16, 0x03u8),
                    ((a + 2) as u16, 0xC7u8),
                    ((a + 4) as u16, 0x0Bu8),
                    ((a + 4) as u16, 0x1Eu8),
                    (a as u16, LOOPBACK_TEST_BYTE),
                ]
            }),
    {
        let a = self.address();
        let mut w: Vec<(u16, u8)> = Vec::new();
        w.push((a + 1, 0x00));  // Disable all interrupts
        w.push((a + 3, 0x80));  // Enable DLAB (set baud rate divisor)
        w.push((a, 0x03));  // Set divisor to 3 (lo byte) 38400 baud
        w.push((a + 1, 0x00));  //                  (hi byte)
        w.push((a + 3, 0x03));  // 8 bits, no parity, one stop bit
        w.push((a + 2, 0xC7));  // Enable FIFO, clear them, with 14-byte threshold
        w.push((a + 4, 0x0B));  // IRQs enabled, RTS/DSR set
        w.push((a + 4, 0x1E));  // Set in loopback mode, test the serial chip
        w.push((a, LOOPBACK_TEST_BYTE));  // Test serial chip
        assert(w@ =~= seq![
            ((a + 1) as u16, 0x00u8),
            ((a + 3) as u16, 0x80u8),
            (a as u16, 0x03u8),
            ((a + 1) as u16, 0x00u8),
            ((a + 3) as u16, 0x03u8),
            ((a + 2) as u16, 0xC7u8),
            ((a + 4) as u16, 0x0Bu8),
            ((a + 4) as u16, 0x1Eu8),
            (a as u16, LOOPBACK_TEST_BYTE),
        ]);
        w
    }

    /// What the loopback test read back decides: the port works when the
    /// test byte came back, and then it is set to normal operation mode by
    /// the write returned.
    pub fn finish_init(self, read_back: u8) -> (r: Result<(u16, u8), SerialError>)
        ensures
            read_back != LOOPBACK_TEST_BYTE ==> r == Err::<(u16, u8), SerialError>(
                SerialError::FaultySerialPort,
            ),
            read_back == LOOPBACK_TEST_BYTE ==> r == Ok::<(u16, u8), SerialError>(
                ((port_address(self) + 4) as u16, 0xfu8),
            ),
    {
        if read_back != LOOPBACK_TEST_BYTE {
            return Err(SerialError::FaultySerialPort);
        }
        Ok((self.address() + 4, 0xf))
    }
}

/// A serial writer that writes to all available serial ports
pub struct SerialWriter {
    /// The ports, `None` where a port is faulty
    ports: Vec<Option<SerialPort>>,
}

impl View for SerialWriter {
    type V = Seq<Option<SerialPort>>;

    closed spec fn view(&self) -> Seq<Option<SerialPort>> {
        self.ports@
    }
}

impl SerialWriter {
    /// A writer over all eight ports.
    pub fn new() -> (r: Self)
        ensures
            r@ == seq![
                Some(SerialPort::Comm1),
                Some(SerialPort::Comm2),
                Some(SerialPort::Comm3),
                Some(SerialPort::Comm4),
                Some(SerialPort::Comm5),
                Some(SerialPort::Comm6),
                Some(SerialPort::Comm7),
                Some(SerialPort::Comm8),
            ],
    {
        let ports = vec![
            Some(SerialPort::Comm1),
            Some(SerialPort::Comm2),
            Some(SerialPort::Comm3),
            Some(SerialPort::Comm4),
            Some(SerialPort::Comm5),
            Some(SerialPort::Comm6),
            Some(SerialPort::Comm7),
            Some(SerialPort::Comm8),
        ];
        let r = SerialWriter { ports };
        assert(r@ =~= seq![
            Some(SerialPort::Comm1),
            Some(SerialPort::Comm2),
            Some(SerialPort::Comm3),
            Some(SerialPort::Comm4),
            Some(SerialPort::Comm5),
            Some(SerialPort::Comm6),
            Some(SerialPort::Comm7),
            Some(SerialPort::Comm8),
        ]);
        r
    }

    /// The number of port slots.
    pub fn port_count(&self) -> (r: usize)
        ensures
            r == self@.len(),
    {
        self.ports.len()
    }

    /// The port in slot `i`, if it is working.
    pub fn port(&self, i: usize) -> (r: Option<SerialPort>)
        requires
            i < self@.len(),
        ensures
            r == self@[i as int],
    {
        self.ports[i]
    }

    /// Marks the port in slot `i` faulty, so nothing is written to it.
    pub fn disable_port(&mut self, i: usize)
        requires
            i < old(self)@.len(),
        ensures
            final(self)@ == old(self)@.update(i as int, None),
    {
        self.ports.set(i, None);
    }

    /// The port writes that send `byte` to all available serial ports, in
    /// slot order.
    pub fn write_byte_all(&self, byte: u8) -> (r: Vec<(u16, u8)>)
        ensures
            r@ == all_byte_writes(self@, self@.len() as int, byte),
    {
        let mut w: Vec<(u16, u8)> = Vec::new();
        let mut i: usize = 0;
        while i < self.ports.len()
            invariant
                i <= self@.len(),
                w@ == all_byte_writes(self@, i as int, byte),
            decreases self@.len() - i,
        {
            match self.ports[i] {
                Some(port) => {
                    let a = port.address();
                    if byte == 10 {
                        w.push((a, 13));
                    }
                    w.push((a, byte));
                },
                None => {},
            }
            i = i + 1;
            assert(w@ =~= all_byte_writes(self@, i as int, byte));
        }
        w
    }
}

} // verus!
