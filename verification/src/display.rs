//! The rotation that a display driver is given, enforced on its command stream.

use vstd::prelude::*;

verus! {

/// The command that sets the memory access control register.
pub const MADCTL: u8 = 0x36;

/// The most bytes of a changed command or data block that are sent.
pub const BLOCK_MAX: usize = 16;

/// `s` cut to the length of a block, with the byte at `i` replaced.
pub open spec fn overridden(s: Seq<u8>, i: int, b: u8) -> Seq<u8> {
    s.take(
        if s.len() < BLOCK_MAX {
            s.len() as int
        } else {
            BLOCK_MAX as int
        },
    ).update(i, b)
}

/// The bytes are those of a MADCTL command.
pub open spec fn sets_madctl(s: Seq<u8>) -> bool {
    s.len() > 0 && s[0] == MADCTL
}

/// Replaces the argument of MADCTL commands on their way to a display, whether
/// it comes with the command or as data behind it.
pub struct RotationInterface {
    pub madctl: u8,
    /// The next data is the argument of a MADCTL command.
    pub intercept_madctl: bool,
}

/// What becomes of command bytes: the state behind them, and the bytes that are
/// sent in their place.
pub open spec fn after_commands(d: RotationInterface, s: Seq<u8>) -> (RotationInterface, Seq<u8>) {
    if sets_madctl(s) && s.len() > 1 {
        (d, overridden(s, 1, d.madctl))
    } else {
        (
            RotationInterface { intercept_madctl: d.intercept_madctl || sets_madctl(s), ..d },
            s,
        )
    }
}

/// What becomes of data bytes: the state behind them, and the bytes that are
/// sent in their place.
pub open spec fn after_data(d: RotationInterface, s: Seq<u8>) -> (RotationInterface, Seq<u8>) {
    (
        RotationInterface { intercept_madctl: false, ..d },
        if d.intercept_madctl && s.len() > 0 {
            overridden(s, 0, d.madctl)
        } else {
            s
        },
    )
}

/// The register is only ever set to the wanted value: where the argument comes with the command,
/// and where it comes as data behind it. The wanted value stays the same.
pub proof fn lemma_madctl_enforced(d: RotationInterface, command: Seq<u8>, data: Seq<u8>)
    requires
        sets_madctl(command),
        command.len() == 1 ==> data.len() > 0,
    ensures
        ({
            let (e, sent) = after_commands(d, command);
            let (f, args) = after_data(e, data);
            &&& sent[0] == MADCTL
            &&& command.len() > 1 ==> sent[1] == d.madctl
            &&& command.len() == 1 ==> args[0] == d.madctl
            &&& e.madctl == d.madctl
            &&& f.madctl == d.madctl
        }),
{
}

/// Nothing else is changed: other commands pass, and so does the data behind them.
pub proof fn lemma_other_bytes_pass(d: RotationInterface, command: Seq<u8>, data: Seq<u8>)
    requires
        !d.intercept_madctl,
        !sets_madctl(command),
    ensures
        after_commands(d, command) == (d, command),
        after_data(d, data) == (d, data),
{
}

/// `s` with the byte at `i` replaced, cut to the length of a block.
fn with_byte(s: &[u8], i: usize, b: u8) -> (r: Vec<u8>)
    requires
        i < s@.len(),
        i < BLOCK_MAX,
    ensures
        r@ == overridden(s@, i as int, b),
{
    let n: usize = if s.len() < BLOCK_MAX { s.len() } else { BLOCK_MAX };
    let mut r: Vec<u8> = Vec::new();
    let mut k: usize = 0;
    while k < n
        invariant
            k <= n <= s@.len(),
            r@ =~= s@.take(k as int),
        decreases n - k,
    {
        r.push(s[k]);
        k += 1;
    }
    r.set(i, b);
    r
}

/// `s` as one's own.
fn copied(s: &[u8]) -> (r: Vec<u8>)
    ensures
        r@ == s@,
{
    let n: usize = s.len();
    let mut r: Vec<u8> = Vec::new();
    let mut k: usize = 0;
    while k < n
        invariant
            k <= n,
            n == s@.len(),
            r@ =~= s@.take(k as int),
        decreases n - k,
    {
        r.push(s[k]);
        k += 1;
    }
    r
}

impl RotationInterface {
    /// Replaces by `madctl`.
    pub fn new(madctl: u8) -> (r: Self)
        ensures
            r == (RotationInterface { madctl, intercept_madctl: false }),
    {
        RotationInterface { madctl, intercept_madctl: false }
    }

    /// The command bytes to send in place of `slice`.
    pub fn send_commands(&mut self, slice: &[u8]) -> (r: Vec<u8>)
        ensures
            (*final(self), r@) == after_commands(*old(self), slice@),
    {
        if slice.len() > 0 && slice[0] == MADCTL {
            if slice.len() > 1 {
                return with_byte(slice, 1, self.madctl);
            }
            self.intercept_madctl = true;
        }
        copied(slice)
    }

    /// The data bytes to send in place of `slice`.
    pub fn send_data(&mut self, slice: &[u8]) -> (r: Vec<u8>)
        ensures
            (*final(self), r@) == after_data(*old(self), slice@),
    {
        if self.intercept_madctl {
            self.intercept_madctl = false;
            if slice.len() > 0 {
                return with_byte(slice, 0, self.madctl);
            }
        }
        copied(slice)
    }

    /// Takes note of data in another form than bytes, which is sent as it is.
    pub fn send_other_data(&mut self)
        ensures
            *final(self) == (RotationInterface { intercept_madctl: false, ..*old(self) }),
    {
        self.intercept_madctl = false;
    }
}

/// Only the argument of a MADCTL command is replaced: all other bytes are sent as they are, up to
/// sixteen of a block that is changed. The argument is awaited as data where the command came
/// alone, and until data came.
pub proof fn lemma_only_argument_replaced(d: RotationInterface, command: Seq<u8>, data: Seq<u8>)
    ensures
        ({
            let (e, sent) = after_commands(d, command);
            let with_argument = command.len() > 1 && command[0] == 0x36;
            let alone = command.len() == 1 && command[0] == 0x36;
            &&& !with_argument ==> sent == command
            &&& with_argument ==> sent.len() == if command.len() < 16 {
                command.len()
            } else {
                16
            }
            &&& with_argument ==> sent[1] == d.madctl
            &&& with_argument ==> forall|j: int|
                0 <= j < sent.len() && j != 1 ==> sent[j] == command[j]
            &&& e.madctl == d.madctl
            &&& e.intercept_madctl == (d.intercept_madctl || alone)
        }),
        ({
            let (e, sent) = after_data(d, data);
            let argument = d.intercept_madctl && data.len() > 0;
            &&& !argument ==> sent == data
            &&& argument ==> sent.len() == if data.len() < 16 {
                data.len()
            } else {
                16
            }
            &&& argument ==> sent[0] == d.madctl
            &&& argument ==> forall|j: int| 1 <= j < sent.len() ==> sent[j] == data[j]
            &&& e.madctl == d.madctl
            &&& !e.intercept_madctl
        }),
{
}

} // verus!
