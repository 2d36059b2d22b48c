//! The 16550 UART: register offsets and what its answers mean.
use vstd::prelude::*;

verus! {

/// Interrupt enable register.
pub const IER: u64 = 1;

/// FIFO control register.
pub const FCR: u64 = 2;

/// Line control register.
pub const LCR: u64 = 3;

/// Line status register.
pub const LSR: u64 = 5;

/// The UART at `base_address`.
#[derive(Copy, Clone, Debug, PartialEq, Eq, Structural)]
pub struct Uart {
    pub base_address: u64,
}

impl Uart {
    pub fn new(base: u64) -> (u: Self)
        ensures
            u.base_address == base,
    {
        Uart { base_address: base }
    }

    /// The register writes that set the UART up, in order: interrupts off,
    /// baud rate divisor 3, 8 bit words, FIFOs on and cleared, receive and
    /// transmit interrupts on.
    pub fn init_sequence(&self) -> (w: Vec<(u64, u8)>)
        requires
            self.base_address + 8 <= u64::MAX,
        ensures
            w@ == seq![
                ((self.base_address + IER) as u64, 0u8),
                ((self.base_address + LCR) as u64, 0x80u8),
                ((self.base_address + 0) as u64, 0x03u8),
                ((self.base_address + 1) as u64, 0x00u8),
                ((self.base_address + LCR) as u64, 3u8),
                ((self.base_address + FCR) as u64, 7u8),
                ((self.base_address + IER) as u64, 3u8),
            ],
    {
        let b = self.base_address;
        let mut w: Vec<(u64, u8)> = Vec::new();
        w.push((b + IER, 0x0));
        w.push((b + LCR, 0x80));
        w.push((b, 0x03));
        w.push((b + 1, 0x00));
        w.push((b + LCR, 3));
        w.push((b + FCR, 0x07));
        w.push((b + IER, 0x03));
        proof {
            assert(w@ =~= seq![
                ((b + IER) as u64, 0u8),
                ((b + LCR) as u64, 0x80u8),
                ((b + 0) as u64, 0x03u8),
                ((b + 1) as u64, 0x00u8),
                ((b + LCR) as u64, 3u8),
                ((b + FCR) as u64, 7u8),
                ((b + IER) as u64, 3u8),
            ]);
        }
        w
    }

    /// What a read gives: the data byte when the line status says one is
    /// ready (bit 0), nothing otherwise.
    pub fn get(&self, line_status: u8, data: u8) -> (r: Option<u8>)
        ensures
            r == if line_status & 1 == 0 {
                None::<u8>
            } else {
                Some(data)
            },
    {
        if line_status & 1 == 0 {
            None
        } else {
            Some(data)
        }
    }
}

} // verus!
