//! The hardware counters behind `perf_event_open(2)`: what is asked of the
//! kernel, and what its answers mean.
use vstd::prelude::*;
use vstd::string::*;

use crate::name_map::{gathered, law_gathered, lemma_place_of, place_of};
use crate::number::{
    hex_text, integer_of, is_figure, law_hex_prefix, law_integers, law_no_integers, law_numeral,
    law_signed_round_trip, numeral, read_hex, read_i32, reckoned, signed_text, strip_hex_prefix,
    to_hex, to_signed_decimal, without_hex_prefix, IntError,
};
use crate::results::EventResults;
use crate::scheduler::Names;
use crate::text::{
    copy_texts, ended_lines, from_chars, glued, has_prefix, law_lines, law_trimmed, lines, lines_of,
    slice_chars, starts_with, to_chars, trim, trimmed, white_space,
};

verus! {

/// An event to count.
#[derive(Debug, Clone)]
pub struct EventConfig {
    pub name: String,
    pub code: u64,
}

impl DeepView for EventConfig {
    type V = (Seq<char>, u64);

    open spec fn deep_view(&self) -> (Seq<char>, u64) {
        (self.name@, self.code)
    }
}

// ─── Bytes of numbers ────────────────────────────────────────────────────────

/// The order in which a machine keeps the bytes of a number.
#[derive(Debug, Clone, Copy, PartialEq, Eq, Structural)]
pub enum ByteOrder {
    /// The lowest byte first.
    Little,
    /// The highest byte first.
    Big,
}

/// The bytes of a number, the lowest first.
pub open spec fn low_bytes(value: nat, width: nat) -> Seq<u8>
    decreases width,
{
    if width == 0 {
        Seq::empty()
    } else {
        seq![(value % 256) as u8] + low_bytes(value / 256, (width - 1) as nat)
    }
}

/// The bytes of a number in the order of the machine.
pub open spec fn word_bytes(order: ByteOrder, value: nat, width: nat) -> Seq<u8> {
    match order {
        ByteOrder::Little => low_bytes(value, width),
        ByteOrder::Big => low_bytes(value, width).reverse(),
    }
}

/// The number that bytes stand for, the lowest first.
pub open spec fn low_value(bytes: Seq<u8>) -> nat
    decreases bytes.len(),
{
    if bytes.len() == 0 {
        0
    } else {
        bytes[0] as nat + 256 * low_value(bytes.drop_first())
    }
}

/// The number that bytes stand for in the order of the machine.
pub open spec fn word_value(order: ByteOrder, bytes: Seq<u8>) -> nat {
    match order {
        ByteOrder::Little => low_value(bytes),
        ByteOrder::Big => low_value(bytes.reverse()),
    }
}

/// The number that `width` bytes go up to.
pub open spec fn word_limit(width: nat) -> nat
    decreases width,
{
    if width == 0 {
        1
    } else {
        256 * word_limit((width - 1) as nat)
    }
}

proof fn lemma_low_bytes(value: nat, width: nat)
    ensures
        low_bytes(value, width).len() == width,
        value < word_limit(width) ==> low_value(low_bytes(value, width)) == value,
    decreases width,
{
    if width > 0 {
        let rest = (width - 1) as nat;
        lemma_low_bytes(value / 256, rest);
        let bytes = low_bytes(value, width);
        assert(bytes.drop_first() =~= low_bytes(value / 256, rest));
        if value < word_limit(width) {
            assert(value / 256 < word_limit(rest));
        }
    }
}

/// A number that is written as bytes is read back, in either order.
pub proof fn law_word_round_trip(order: ByteOrder, value: nat, width: nat)
    requires
        value < word_limit(width),
    ensures
        word_bytes(order, value, width).len() == width,
        word_value(order, word_bytes(order, value, width)) == value,
{
    lemma_low_bytes(value, width);
    assert(low_bytes(value, width).reverse().reverse() =~= low_bytes(value, width));
}

/// Writes the bytes of a number.
fn write_word(order: ByteOrder, value: u64, width: usize) -> (out: Vec<u8>)
    ensures
        out@ == word_bytes(order, value as nat, width as nat),
        out.len() == width,
{
    let mut out: Vec<u8> = Vec::new();
    let mut rest: u64 = value;
    let mut i: usize = 0;
    assert(out@ + low_bytes(rest as nat, (width - i) as nat) =~= low_bytes(
        value as nat,
        width as nat,
    ));
    while i < width
        invariant
            i <= width,
            out.len() == i,
            out@ + low_bytes(rest as nat, (width - i) as nat) == low_bytes(
                value as nat,
                width as nat,
            ),
        decreases width - i,
    {
        let ghost before = out@;
        let ghost tail = low_bytes((rest / 256) as nat, (width - i - 1) as nat);
        out.push((rest % 256) as u8);
        assert(before + (seq![(rest % 256) as u8] + tail) =~= out@ + tail);
        rest = rest / 256;
        i += 1;
    }
    assert(out@ =~= low_bytes(value as nat, width as nat));
    match order {
        ByteOrder::Little => out,
        ByteOrder::Big => {
            let mut turned: Vec<u8> = Vec::new();
            for k in 0..out.len()
                invariant
                    turned.len() == k,
                    forall|j: int| 0 <= j < k ==> turned@[j] == out@[out.len() - 1 - j],
            {
                turned.push(out[out.len() - 1 - k]);
            }
            assert(turned@ =~= out@.reverse());
            turned
        },
    }
}

proof fn lemma_low_value_bound(bytes: Seq<u8>)
    ensures
        low_value(bytes) < word_limit(bytes.len()),
    decreases bytes.len(),
{
    if bytes.len() > 0 {
        lemma_low_value_bound(bytes.drop_first());
    }
}

/// Reads the number that eight bytes stand for.
fn read_word(order: ByteOrder, bytes: &Vec<u8>, from: usize) -> (value: u64)
    requires
        from + 8 <= bytes.len(),
    ensures
        value == word_value(order, bytes@.subrange(from as int, from + 8)),
{
    let ghost part = bytes@.subrange(from as int, from + 8);
    let ghost low = match order {
        ByteOrder::Little => part,
        ByteOrder::Big => part.reverse(),
    };
    let mut value: u64 = 0;
    let mut i: usize = 8;
    assert(low.skip(8) =~= Seq::empty());
    proof {
        reveal_with_fuel(word_limit, 9);
    }
    while i > 0
        invariant
            i <= 8,
            from + 8 <= bytes.len(),
            part == bytes@.subrange(from as int, from + 8),
            low == (match order {
                ByteOrder::Little => part,
                ByteOrder::Big => part.reverse(),
            }),
            value == low_value(low.skip(i as int)),
        decreases i,
    {
        i -= 1;
        let at = match order {
            ByteOrder::Little => from + i,
            ByteOrder::Big => from + (7 - i),
        };
        proof {
            assert(low.skip(i as int).drop_first() =~= low.skip(i + 1));
            assert(low.skip(i as int)[0] == bytes@[at as int]);
            lemma_low_value_bound(low.skip(i as int));
            reveal_with_fuel(word_limit, 9);
        }
        value = value * 256 + bytes[at] as u64;
    }
    assert(low.skip(0) =~= low);
    value
}

// ─── Event attributes ────────────────────────────────────────────────────────

/// The type of raw hardware events.
pub const PERF_TYPE_RAW: u32 = 4;

/// The size of the attributes in bytes.
pub const PERF_ATTR_BUF_SIZE: u32 = 128;

/// What is read with each count: the time enabled (1) and the time running (2).
pub const PERF_FORMAT_TIMES: u64 = 3;

/// The flag of an event that starts disabled.
pub const PERF_ATTR_FLAG_DISABLED: u64 = 1;

/// The flags of an event that counts neither in the kernel (32) nor in the
/// hypervisor (64).
pub const PERF_ATTR_FLAG_USER_ONLY: u64 = 96;

/// The attributes of an event, as the kernel wants them.
#[derive(Debug, Clone)]
pub struct PerfEventAttr {
    pub buf: Vec<u8>,
}

/// A sequence of zeros.
pub open spec fn zeros(n: nat) -> Seq<u8> {
    Seq::new(n, |i: int| 0u8)
}

/// The attributes of a raw event: from the front its type, the size, the code,
/// at byte 32 the read format, then the flags, and zeros elsewhere.
pub open spec fn attr_bytes(order: ByteOrder, code: u64, disabled: bool) -> Seq<u8> {
    let flags = if disabled {
        PERF_ATTR_FLAG_USER_ONLY + PERF_ATTR_FLAG_DISABLED
    } else {
        PERF_ATTR_FLAG_USER_ONLY as int
    };
    word_bytes(order, PERF_TYPE_RAW as nat, 4) + word_bytes(order, PERF_ATTR_BUF_SIZE as nat, 4)
        + word_bytes(order, code as nat, 8) + zeros(16) + word_bytes(
        order,
        PERF_FORMAT_TIMES as nat,
        8,
    ) + word_bytes(order, flags as nat, 8) + zeros(80)
}

/// Bytes that are placed among zeros leave the zeros before and after them.
proof fn lemma_placed_in_zeros(front: Seq<u8>, n: nat, gap: nat, bytes: Seq<u8>)
    requires
        gap + bytes.len() <= n,
    ensures
        placed(front + zeros(n), (front.len() + gap) as int, bytes) == front + zeros(gap) + bytes
            + zeros((n - gap - bytes.len()) as nat),
{
    assert(placed(front + zeros(n), (front.len() + gap) as int, bytes) =~= front + zeros(gap)
        + bytes + zeros((n - gap - bytes.len()) as nat));
}

impl PerfEventAttr {
    /// The attributes of a raw event that counts in user space only.
    pub fn new_raw_event(order: ByteOrder, config: u64, disabled: bool) -> (attr: Self)
        ensures
            attr.buf@ == attr_bytes(order, config, disabled),
    {
        let mut buf: Vec<u8> = Vec::new();
        for i in 0..128usize
            invariant
                buf@ =~= zeros(i as nat),
        {
            buf.push(0);
        }
        let mut attr = PerfEventAttr { buf };
        let ghost w1 = word_bytes(order, PERF_TYPE_RAW as nat, 4);
        let ghost w2 = word_bytes(order, PERF_ATTR_BUF_SIZE as nat, 4);
        let ghost w3 = word_bytes(order, config as nat, 8);
        let ghost w4 = word_bytes(order, PERF_FORMAT_TIMES as nat, 8);
        proof {
            lemma_low_bytes(PERF_TYPE_RAW as nat, 4);
            lemma_low_bytes(PERF_ATTR_BUF_SIZE as nat, 4);
            lemma_low_bytes(config as nat, 8);
            lemma_low_bytes(PERF_FORMAT_TIMES as nat, 8);
            assert(attr.buf@ =~= Seq::empty() + zeros(128));
            lemma_placed_in_zeros(Seq::empty(), 128, 0, w1);
            assert(Seq::empty() + zeros(0) + w1 =~= w1);
        }
        attr.set_u32(order, 0, PERF_TYPE_RAW);
        proof {
            lemma_placed_in_zeros(w1, 124, 0, w2);
            assert(w1 + zeros(0) + w2 =~= w1 + w2);
        }
        attr.set_u32(order, 4, PERF_ATTR_BUF_SIZE);
        proof {
            lemma_placed_in_zeros(w1 + w2, 120, 0, w3);
            assert(w1 + w2 + zeros(0) + w3 =~= w1 + w2 + w3);
        }
        attr.set_u64(order, 8, config);
        proof {
            lemma_placed_in_zeros(w1 + w2 + w3, 112, 16, w4);
        }
        attr.set_u64(order, 32, PERF_FORMAT_TIMES);
        let mut flags: u64 = PERF_ATTR_FLAG_USER_ONLY;
        if disabled {
            flags = flags + PERF_ATTR_FLAG_DISABLED;
        }
        proof {
            let front = w1 + w2 + w3 + zeros(16) + w4;
            let w5 = word_bytes(order, flags as nat, 8);
            lemma_low_bytes(flags as nat, 8);
            lemma_placed_in_zeros(front, 88, 0, w5);
            assert(front + zeros(0) + w5 =~= front + w5);
        }
        attr.set_u64(order, 40, flags);
        attr
    }

    /// Writes a number of four bytes.
    fn set_u32(&mut self, order: ByteOrder, offset: usize, val: u32)
        requires
            offset + 4 <= old(self).buf.len(),
        ensures
            final(self).buf@ == placed(
                old(self).buf@,
                offset as int,
                word_bytes(order, val as nat, 4),
            ),
    {
        let bytes = write_word(order, val as u64, 4);
        self.place(offset, &bytes);
    }

    /// Writes a number of eight bytes.
    fn set_u64(&mut self, order: ByteOrder, offset: usize, val: u64)
        requires
            offset + 8 <= old(self).buf.len(),
        ensures
            final(self).buf@ == placed(
                old(self).buf@,
                offset as int,
                word_bytes(order, val as nat, 8),
            ),
    {
        let bytes = write_word(order, val, 8);
        self.place(offset, &bytes);
    }

    fn place(&mut self, offset: usize, bytes: &Vec<u8>)
        requires
            offset + bytes.len() <= old(self).buf.len(),
        ensures
            final(self).buf@ == placed(old(self).buf@, offset as int, bytes@),
    {
        let ghost before = self.buf@;
        for i in 0..bytes.len()
            invariant
                offset + bytes.len() <= before.len(),
                self.buf.len() == before.len(),
                self.buf@ =~= placed(before, offset as int, bytes@.take(i as int)),
        {
            let byte = bytes[i];
            self.buf[offset + i] = byte;
        }
        assert(bytes@.take(bytes.len() as int) =~= bytes@);
    }
}

/// A sequence with other bytes in it from a place on.
pub open spec fn placed(s: Seq<u8>, at: int, bytes: Seq<u8>) -> Seq<u8> {
    s.take(at) + bytes + s.skip(at + bytes.len())
}

/// What to open for one event of a group.
#[derive(Debug, Clone)]
pub struct OpenStep {
    pub attr: PerfEventAttr,
    /// Whether the event leads its group; all others join the first one.
    pub leads: bool,
}

/// What to open for the events of a group: the first one leads the group and
/// starts disabled.
pub fn open_steps(order: ByteOrder, codes: &Vec<u64>) -> (steps: Vec<OpenStep>)
    ensures
        steps.len() == codes.len(),
        forall|i: int|
            0 <= i < steps.len() ==> (#[trigger] steps@[i]).leads == (i == 0)
                && steps@[i].attr.buf@ == attr_bytes(order, codes@[i], i == 0),
{
    let mut steps: Vec<OpenStep> = Vec::new();
    for i in 0..codes.len()
        invariant
            steps.len() == i,
            forall|k: int|
                0 <= k < steps.len() ==> (#[trigger] steps@[k]).leads == (k == 0)
                    && steps@[k].attr.buf@ == attr_bytes(order, codes@[k], k == 0),
    {
        let leads = i == 0;
        let attr = PerfEventAttr::new_raw_event(order, codes[i], leads);
        steps.push(OpenStep { attr, leads });
    }
    steps
}

/// An event that cannot be opened.
#[derive(Debug)]
pub struct OpenError {
    pub event: EventConfig,
    pub cpu: i32,
    /// What the kernel says.
    pub reason: String,
}

impl OpenError {
    /// What the error says.
    pub open spec fn text(self) -> Seq<char> {
        "perf_event_open failed for event '"@ + self.event.name@ + "' (code 0x"@ + hex_text(
            self.event.code,
        ) + ") on cpu "@ + signed_text(self.cpu as int) + ": "@ + self.reason@
    }

    /// The error as a message.
    pub fn message(&self) -> (out: String)
        ensures
            out@ == self.text(),
    {
        let mut out = "perf_event_open failed for event '".to_owned();
        out.append(self.event.name.as_str());
        out.append("' (code 0x");
        out.append(to_hex(self.event.code).as_str());
        out.append(") on cpu ");
        out.append(to_signed_decimal(self.cpu).as_str());
        out.append(": ");
        out.append(self.reason.as_str());
        out
    }
}

// ─── Readings ────────────────────────────────────────────────────────────────

/// What a read of a counter says.
#[derive(Debug, Clone, Copy, PartialEq, Eq, Structural)]
pub enum Reading {
    /// The read gave too little.
    Missing,
    /// The counter never ran.
    Zero,
    /// The counter ran part of the time: its count times the time enabled, by
    /// the time running.
    Scaled { value: u64, time_enabled: u64, time_running: u64 },
    /// The counter ran all the time.
    Exact(u64),
}

/// What a count with its times says.
pub open spec fn reading_of(value: u64, time_enabled: u64, time_running: u64) -> Reading {
    if time_running == 0 || time_enabled == 0 {
        Reading::Zero
    } else if time_running < time_enabled {
        Reading::Scaled { value, time_enabled, time_running }
    } else {
        Reading::Exact(value)
    }
}

/// What a read of `count` bytes into a buffer says: the count of the counter,
/// the time enabled, and the time running, of eight bytes each.
pub fn decode_reading(order: ByteOrder, count: i64, buf: &Vec<u8>) -> (reading: Reading)
    requires
        count >= 24 ==> buf.len() >= 24,
    ensures
        reading == if count < 24 {
            Reading::Missing
        } else {
            reading_of(
                word_value(order, buf@.subrange(0, 8)) as u64,
                word_value(order, buf@.subrange(8, 16)) as u64,
                word_value(order, buf@.subrange(16, 24)) as u64,
            )
        },
{
    if count < 24 {
        return Reading::Missing;
    }
    let value = read_word(order, buf, 0);
    let time_enabled = read_word(order, buf, 8);
    let time_running = read_word(order, buf, 16);
    if time_running == 0 || time_enabled == 0 {
        Reading::Zero
    } else if time_running < time_enabled {
        Reading::Scaled { value, time_enabled, time_running }
    } else {
        Reading::Exact(value)
    }
}

/// The number that eight bytes stand for, in either order.
pub open spec fn eight_bytes(order: ByteOrder, bytes: Seq<u8>, at: int) -> int {
    match order {
        ByteOrder::Little => bytes[at] + 0x100 * bytes[at + 1] + 0x1_0000 * bytes[at + 2]
            + 0x100_0000 * bytes[at + 3] + 0x1_0000_0000 * bytes[at + 4] + 0x100_0000_0000
            * bytes[at + 5] + 0x1_0000_0000_0000 * bytes[at + 6] + 0x100_0000_0000_0000 * bytes[at
            + 7],
        ByteOrder::Big => bytes[at + 7] + 0x100 * bytes[at + 6] + 0x1_0000 * bytes[at + 5]
            + 0x100_0000 * bytes[at + 4] + 0x1_0000_0000 * bytes[at + 3] + 0x100_0000_0000
            * bytes[at + 2] + 0x1_0000_0000_0000 * bytes[at + 1] + 0x100_0000_0000_0000
            * bytes[at],
    }
}

/// The number that four bytes stand for, in either order.
pub open spec fn four_bytes(order: ByteOrder, bytes: Seq<u8>, at: int) -> int {
    match order {
        ByteOrder::Little => bytes[at] + 0x100 * bytes[at + 1] + 0x1_0000 * bytes[at + 2]
            + 0x100_0000 * bytes[at + 3],
        ByteOrder::Big => bytes[at + 3] + 0x100 * bytes[at + 2] + 0x1_0000 * bytes[at + 1]
            + 0x100_0000 * bytes[at],
    }
}

/// A word of eight bytes in a buffer is the number that its bytes stand for.
proof fn lemma_eight_bytes(order: ByteOrder, bytes: Seq<u8>, at: int)
    requires
        0 <= at,
        at + 8 <= bytes.len(),
    ensures
        word_value(order, bytes.subrange(at, at + 8)) == eight_bytes(order, bytes, at),
        eight_bytes(order, bytes, at) <= u64::MAX,
{
    let part = bytes.subrange(at, at + 8);
    let low = match order {
        ByteOrder::Little => part,
        ByteOrder::Big => part.reverse(),
    };
    lemma_eight_low(low);
}

proof fn lemma_eight_low(low: Seq<u8>)
    requires
        low.len() == 8,
    ensures
        low_value(low) == low[0] + 0x100 * low[1] + 0x1_0000 * low[2] + 0x100_0000 * low[3]
            + 0x1_0000_0000 * low[4] + 0x100_0000_0000 * low[5] + 0x1_0000_0000_0000 * low[6]
            + 0x100_0000_0000_0000 * low[7],
{
    reveal_with_fuel(low_value, 9);
}

/// What a read of a counter means: nothing if it is short of twenty-four bytes;
/// else the bytes hold a count, the time enabled and the time running. A counter
/// without one of the times counted nothing, one that ran for less than the time
/// enabled is scaled, and one that ran for all of it has counted exactly.
pub proof fn law_reading(order: ByteOrder, count: i64, buf: &Vec<u8>, reading: Reading)
    requires
        count >= 24 ==> buf.len() >= 24,
        call_ensures(decode_reading, (order, count, buf), reading),
    ensures
        reading == Reading::Missing <==> count < 24,
        count >= 24 ==> {
            let value = eight_bytes(order, buf@, 0);
            let enabled = eight_bytes(order, buf@, 8);
            let running = eight_bytes(order, buf@, 16);
            &&& reading == Reading::Zero <==> enabled == 0 || running == 0
            &&& reading is Exact <==> 0 < enabled <= running
            &&& reading is Scaled <==> 0 < running < enabled
            &&& reading matches Reading::Exact(v) ==> v == value
            &&& reading matches Reading::Scaled { value: v, time_enabled, time_running } ==> v
                == value && time_enabled == enabled && time_running == running
        },
{
    if count >= 24 {
        lemma_eight_bytes(order, buf@, 0);
        lemma_eight_bytes(order, buf@, 8);
        lemma_eight_bytes(order, buf@, 16);
    }
}

// ─── Values over cores ───────────────────────────────────────────────────────

/// Adds values to sums. A value that is missing makes its sum invalid.
pub fn aggregate_values<T: Copy, F: Fn(T, T) -> T>(
    dest: &mut Vec<T>,
    valid: &mut Vec<bool>,
    src: &Vec<Option<T>>,
    plus: &F,
)
    requires
        src.len() <= old(dest).len(),
        src.len() <= old(valid).len(),
        forall|a: T, b: T| call_requires(*plus, (a, b)),
    ensures
        final(dest).len() == old(dest).len(),
        final(valid).len() == old(valid).len(),
        forall|i: int|
            0 <= i < src.len() ==> added(
                *plus,
                old(dest)@[i],
                old(valid)@[i],
                #[trigger] src@[i],
                final(dest)@[i],
                final(valid)@[i],
            ),
        forall|i: int|
            src.len() <= i < old(dest).len() ==> #[trigger] final(dest)@[i] == old(dest)@[i],
        forall|i: int|
            src.len() <= i < old(valid).len() ==> #[trigger] final(valid)@[i] == old(valid)@[i],
{
    let ghost sums = dest@;
    let ghost flags = valid@;
    for i in 0..src.len()
        invariant
            forall|a: T, b: T| call_requires(*plus, (a, b)),
            src.len() <= sums.len(),
            src.len() <= flags.len(),
            dest.len() == sums.len(),
            valid.len() == flags.len(),
            forall|k: int|
                0 <= k < i ==> added(
                    *plus,
                    sums[k],
                    flags[k],
                    #[trigger] src@[k],
                    dest@[k],
                    valid@[k],
                ),
            forall|k: int| i <= k < sums.len() ==> #[trigger] dest@[k] == sums[k],
            forall|k: int| i <= k < flags.len() ==> #[trigger] valid@[k] == flags[k],
    {
        if let Some(v) = src[i] {
            let sum = plus(dest[i], v);
            dest[i] = sum;
        } else {
            valid[i] = false;
        }
    }
}

/// What adding a value to a sum does: a missing one makes it invalid.
pub open spec fn added<T, F: Fn(T, T) -> T>(
    plus: F,
    sum: T,
    valid: bool,
    value: Option<T>,
    new_sum: T,
    new_valid: bool,
) -> bool {
    match value {
        Some(v) => call_ensures(plus, (sum, v), new_sum) && new_valid == valid,
        None => new_sum == sum && !new_valid,
    }
}

/// The sums that are valid.
pub fn finalize_values<T: Copy>(vals: &Vec<T>, valid: &Vec<bool>) -> (out: Vec<Option<T>>)
    ensures
        out.len() == if vals.len() <= valid.len() {
            vals.len()
        } else {
            valid.len()
        },
        forall|i: int|
            0 <= i < out.len() ==> #[trigger] out@[i] == if valid@[i] {
                Some(vals@[i])
            } else {
                None
            },
{
    let mut out: Vec<Option<T>> = Vec::new();
    let mut i: usize = 0;
    while i < vals.len() && i < valid.len()
        invariant
            i <= vals.len(),
            i <= valid.len(),
            out.len() == i,
            forall|k: int|
                0 <= k < i ==> #[trigger] out@[k] == if valid@[k] {
                    Some(vals@[k])
                } else {
                    None
                },
        decreases vals.len() - i,
    {
        if valid[i] {
            out.push(Some(vals[i]));
        } else {
            out.push(None);
        }
        i += 1;
    }
    out
}

/// Whether a value brings a sum to another: there is no sum any more once a
/// value is missing.
pub open spec fn accumulates<T, F: Fn(T, T) -> T>(
    plus: F,
    before: Option<T>,
    value: Option<T>,
    sum: Option<T>,
) -> bool {
    match (before, value) {
        (Some(b), Some(v)) => sum matches Some(s) && call_ensures(plus, (b, v), s),
        _ => sum is None,
    }
}

/// Whether values come to a sum from a start value on, when they are added in
/// order.
pub open spec fn sums_to<T, F: Fn(T, T) -> T>(
    plus: F,
    start: T,
    values: Seq<Option<T>>,
    sum: Option<T>,
) -> bool
    decreases values.len(),
{
    if values.len() == 0 {
        sum == Some(start)
    } else {
        exists|before: Option<T>|
            sums_to(plus, start, values.drop_last(), before) && #[trigger] accumulates(
                plus,
                before,
                values.last(),
                sum,
            )
    }
}

/// A sum that counts if it is valid.
pub open spec fn valid_sum<T>(sum: T, valid: bool) -> Option<T> {
    if valid {
        Some(sum)
    } else {
        None
    }
}

proof fn lemma_one_more<T, F: Fn(T, T) -> T>(
    plus: F,
    start: T,
    values: Seq<Option<T>>,
    value: Option<T>,
    sum: T,
    valid: bool,
    new_sum: T,
    new_valid: bool,
)
    requires
        sums_to(plus, start, values, valid_sum(sum, valid)),
        added(plus, sum, valid, value, new_sum, new_valid),
    ensures
        sums_to(plus, start, values.push(value), valid_sum(new_sum, new_valid)),
{
    let longer = values.push(value);
    assert(longer.drop_last() =~= values);
    assert(accumulates(
        plus,
        valid_sum(sum, valid),
        longer.last(),
        valid_sum(new_sum, new_valid),
    ));
}

/// The values of one event.
pub open spec fn column<T>(readings: Seq<Seq<Option<T>>>, event: int) -> Seq<Option<T>> {
    readings.map_values(|values: Seq<Option<T>>| values[event])
}

/// Whether the values of a group are the sums of its readings, event by event.
pub open spec fn group_sums<T, F: Fn(T, T) -> T>(
    plus: F,
    start: T,
    events: nat,
    readings: Seq<Seq<Option<T>>>,
    values: Seq<Option<T>>,
) -> bool {
    &&& values.len() == events
    &&& forall|k: int|
        0 <= k < events ==> sums_to(plus, start, column(readings, k), #[trigger] values[k])
}

/// The readings of vectors.
pub open spec fn readings_of<T>(readings: Seq<Vec<Option<T>>>) -> Seq<Seq<Option<T>>> {
    readings.map_values(|values: Vec<Option<T>>| values@)
}

/// The readings between two places, of one process after another.
pub open spec fn span_readings<T>(readings: Seq<Vec<Vec<Option<T>>>>, from: int, to: int) -> Seq<
    Seq<Option<T>>,
> {
    readings.flat_map(|process: Vec<Vec<Option<T>>>| readings_of(process@.subrange(from, to)))
}

/// Adds the readings between two places over all processes.
pub fn sum_group<T: Copy, F: Fn(T, T) -> T>(
    events: usize,
    readings: &Vec<Vec<Vec<Option<T>>>>,
    from: usize,
    to: usize,
    start: T,
    plus: &F,
) -> (values: Vec<Option<T>>)
    requires
        from <= to,
        forall|p: int| 0 <= p < readings.len() ==> to <= (#[trigger] readings@[p]).len(),
        forall|p: int, c: int|
            0 <= p < readings.len() && from <= c < to ==> (#[trigger] readings@[p]@[c]).len()
                == events,
        forall|a: T, b: T| call_requires(*plus, (a, b)),
    ensures
        group_sums(
            *plus,
            start,
            events as nat,
            span_readings(readings@, from as int, to as int),
            values@,
        ),
{
    let ghost all = readings@;
    let ghost f = |process: Vec<Vec<Option<T>>>|
        readings_of(process@.subrange(from as int, to as int));
    let mut sums: Vec<T> = Vec::new();
    let mut valid: Vec<bool> = Vec::new();
    for k in 0..events
        invariant
            sums.len() == k,
            valid.len() == k,
            forall|j: int| 0 <= j < k ==> #[trigger] sums@[j] == start,
            forall|j: int| 0 <= j < k ==> #[trigger] valid@[j],
    {
        sums.push(start);
        valid.push(true);
    }
    assert(all.take(0) =~= Seq::empty());
    assert forall|k: int| 0 <= k < events implies sums_to(
        *plus,
        start,
        column(all.take(0).flat_map(f), k),
        valid_sum(#[trigger] sums@[k], valid@[k]),
    ) by {
        assert(column(all.take(0).flat_map(f), k).len() == 0);
    }
    for p in 0..readings.len()
        invariant
            from <= to,
            all == readings@,
            f == (|process: Vec<Vec<Option<T>>>|
                readings_of(process@.subrange(from as int, to as int))),
            forall|p: int| 0 <= p < readings.len() ==> to <= (#[trigger] readings@[p]).len(),
            forall|p: int, c: int|
                0 <= p < readings.len() && from <= c < to ==> (#[trigger] readings@[p]@[c]).len()
                    == events,
            forall|a: T, b: T| call_requires(*plus, (a, b)),
            sums.len() == events,
            valid.len() == events,
            forall|k: int|
                0 <= k < events ==> sums_to(
                    *plus,
                    start,
                    column(all.take(p as int).flat_map(f), k),
                    valid_sum(#[trigger] sums@[k], valid@[k]),
                ),
    {
        let process = &readings[p];
        let ghost earlier = all.take(p as int).flat_map(f);
        let ghost own = readings_of(process@.subrange(from as int, to as int));
        assert(earlier + own.take(0) =~= earlier);
        for c in from..to
            invariant
                from <= c,
                to <= process.len(),
                p < readings.len(),
                *process == readings@[p as int],
                forall|p: int, c: int|
                    0 <= p < readings.len() && from <= c < to ==> (
                    #[trigger] readings@[p]@[c]).len() == events,
                forall|a: T, b: T| call_requires(*plus, (a, b)),
                own == readings_of(process@.subrange(from as int, to as int)),
                sums.len() == events,
                valid.len() == events,
                forall|k: int|
                    0 <= k < events ==> sums_to(
                        *plus,
                        start,
                        column(earlier + own.take(c - from), k),
                        valid_sum(#[trigger] sums@[k], valid@[k]),
                    ),
        {
            let ghost before = sums@;
            let ghost flags = valid@;
            let ghost done = earlier + own.take(c - from);
            let ghost reading = process@[c as int]@;
            assert(readings@[p as int]@[c as int].len() == events);
            aggregate_values(&mut sums, &mut valid, &process[c], plus);
            assert forall|k: int| 0 <= k < events implies sums_to(
                *plus,
                start,
                column(earlier + own.take(c + 1 - from), k),
                valid_sum(#[trigger] sums@[k], valid@[k]),
            ) by {
                let value = reading[k];
                assert(earlier + own.take(c + 1 - from) =~= done.push(reading));
                assert(column(done.push(reading), k) =~= column(done, k).push(value));
                assert(sums_to(*plus, start, column(done, k), valid_sum(before[k], flags[k])));
                assert(added(*plus, before[k], flags[k], value, sums@[k], valid@[k]));
                lemma_one_more(
                    *plus,
                    start,
                    column(done, k),
                    value,
                    before[k],
                    flags[k],
                    sums@[k],
                    valid@[k],
                );
            }
        }
        proof {
            assert(own.take(to - from) =~= own);
            all.lemma_flat_map_take_append(f, p as int);
        }
    }
    assert(all.take(all.len() as int) =~= all);
    let values = finalize_values(&sums, &valid);
    assert forall|k: int| 0 <= k < events implies sums_to(
        *plus,
        start,
        column(all.flat_map(f), k),
        #[trigger] values@[k],
    ) by {
        assert(sums_to(*plus, start, column(all.flat_map(f), k), valid_sum(sums@[k], valid@[k])));
    }
    values
}

/// The readings of one group over all processes and cores, when those of a
/// process stand group after group, `cores` for each.
pub open spec fn group_readings<T>(
    readings: Seq<Vec<Vec<Option<T>>>>,
    cores: nat,
    group: int,
) -> Seq<Seq<Option<T>>> {
    span_readings(readings, group * cores, group * cores + cores)
}

/// Event groups under their names, with their values.
pub open spec fn named_values<T>(names: Seq<Names>, values: Seq<Seq<Option<T>>>) -> Seq<
    (Names, Seq<Option<T>>),
> {
    Seq::new(names.len(), |g: int| (names[g], values[g]))
}

/// Whether values are, for each group, the sums over the processes and cores.
pub open spec fn combines<T, F: Fn(T, T) -> T>(
    plus: F,
    start: T,
    names: Seq<Names>,
    readings: Seq<Vec<Vec<Option<T>>>>,
    cores: nat,
    values: Seq<Seq<Option<T>>>,
) -> bool {
    &&& values.len() == names.len()
    &&& forall|g: int|
        0 <= g < names.len() ==> group_sums(
            plus,
            start,
            names[g].len(),
            group_readings(readings, cores, g),
            #[trigger] values[g],
        )
}

/// The results of all groups from the readings of all processes and cores. The
/// readings of a process stand group after group, one for each core. What is
/// counted for the cores as a whole counts as one process.
pub fn combine_readings<T: Copy, F: Fn(T, T) -> T>(
    event_names: &Vec<Vec<String>>,
    readings: &Vec<Vec<Vec<Option<T>>>>,
    cores: usize,
    start: T,
    plus: &F,
) -> (out: EventResults<T>)
    requires
        event_names.len() * cores <= usize::MAX,
        forall|p: int|
            0 <= p < readings.len() ==> (#[trigger] readings@[p]).len() == event_names.len()
                * cores,
        forall|p: int, g: int, c: int|
            0 <= p < readings.len() && 0 <= g < event_names.len() && 0 <= c < cores ==> (
            #[trigger] readings@[p]@[g * cores + c]).len() == #[trigger] event_names@[g].len(),
        forall|a: T, b: T| call_requires(*plus, (a, b)),
    ensures
        exists|values: Seq<Seq<Option<T>>>|
            #![trigger named_values(event_names.deep_view(), values)]
            combines(*plus, start, event_names.deep_view(), readings@, cores as nat, values)
                && out@ == gathered(named_values(event_names.deep_view(), values)),
{
    let ghost names = event_names.deep_view();
    let mut out: EventResults<T> = EventResults::new();
    let ghost mut values: Seq<Seq<Option<T>>> = Seq::empty();
    assert(named_values(names.take(0), values) =~= Seq::empty());
    for g in 0..event_names.len()
        invariant
            names == event_names.deep_view(),
            event_names.len() * cores <= usize::MAX,
            forall|p: int|
                0 <= p < readings.len() ==> (#[trigger] readings@[p]).len() == event_names.len()
                    * cores,
            forall|p: int, g: int, c: int|
                0 <= p < readings.len() && 0 <= g < event_names.len() && 0 <= c < cores ==> (
                #[trigger] readings@[p]@[g * cores + c]).len() == #[trigger] event_names@[g].len(),
            forall|a: T, b: T| call_requires(*plus, (a, b)),
            combines(*plus, start, names.take(g as int), readings@, cores as nat, values),
            out@ == gathered(named_values(names.take(g as int), values)),
    {
        proof {
            assert(g * cores + cores <= event_names.len() * cores) by (nonlinear_arith)
                requires
                    g < event_names.len(),
                    0 <= cores,
            ;
            assert(0 <= g * cores) by (nonlinear_arith)
                requires
                    0 <= g,
                    0 <= cores,
            ;
        }
        let from = g * cores;
        let to = from + cores;
        assert forall|p: int, c: int| 0 <= p < readings.len() && from <= c < to implies (
        #[trigger] readings@[p]@[c]).len() == event_names@[g as int].len() by {
            assert(readings@[p]@[g * cores + (c - from)].len() == event_names@[g as int].len());
        }
        let sums = sum_group(event_names[g].len(), readings, from, to, start, plus);
        let ghost before = values;
        proof {
            values = values.push(sums@);
            let pairs = named_values(names.take(g as int), before);
            assert(named_values(names.take(g + 1), values) =~= pairs.push(
                (names[g as int], sums@),
            ));
            assert(pairs.push((names[g as int], sums@)).drop_last() =~= pairs);
            assert forall|k: int| 0 <= k < names.take(g + 1).len() implies group_sums(
                *plus,
                start,
                names.take(g + 1)[k].len(),
                group_readings(readings@, cores as nat, k),
                #[trigger] values[k],
            ) by {
                if k < g {
                    assert(values[k] == before[k]);
                    assert(names.take(g as int)[k] == names.take(g + 1)[k]);
                } else {
                    assert(values[k] == sums@);
                }
            }
        }
        out.insert(copy_texts(&event_names[g]), sums);
    }
    assert(names.take(names.len() as int) =~= names);
    out
}

// ─── Privileges ──────────────────────────────────────────────────────────────

/// The process may not count events: the kernel is too strict for it.
#[derive(Debug, Clone, Copy, PartialEq, Eq, Structural)]
pub struct PrivilegeError {
    /// The level in `perf_event_paranoid`.
    pub paranoid: i32,
}

impl PrivilegeError {
    /// What the error says.
    pub open spec fn text(self) -> Seq<char> {
        "perf_event_paranoid is "@ + signed_text(self.paranoid as int)
            + " and process lacks CAP_PERFMON/CAP_SYS_ADMIN. Set /proc/sys/kernel/perf_event_paranoid to -1 or run as root."@
    }

    /// The error as a message.
    pub fn message(&self) -> (out: String)
        ensures
            out@ == self.text(),
    {
        let mut out = "perf_event_paranoid is ".to_owned();
        out.append(to_signed_decimal(self.paranoid).as_str());
        out.append(
            " and process lacks CAP_PERFMON/CAP_SYS_ADMIN. Set /proc/sys/kernel/perf_event_paranoid to -1 or run as root.",
        );
        assert(out@ =~= self.text());
        out
    }
}

/// The level that `perf_event_paranoid` holds; 2 if it holds none.
pub open spec fn paranoid_level(content: Option<Seq<char>>) -> int {
    match content {
        None => 2,
        Some(s) => match integer_of(trimmed(s), 10, i32::MIN as int, i32::MAX as int) {
            Ok(level) => level,
            Err(_) => 2,
        },
    }
}

/// Whether a set of capabilities has number 38, which is `CAP_PERFMON`, or
/// number 21, which is `CAP_SYS_ADMIN`.
pub open spec fn may_count(caps: u64) -> bool {
    (caps / 0x40_0000_0000) % 2 == 1 || (caps / 0x20_0000) % 2 == 1
}

/// Whether a line of `/proc/self/status` gives the process a capability that
/// lets it count events.
pub open spec fn line_grants(line: Seq<char>) -> bool {
    starts_with(line, "CapEff:\t"@) && (integer_of(
        trimmed(line.skip("CapEff:\t"@.len() as int)),
        16,
        0,
        u64::MAX as int,
    ) matches Ok(caps) && may_count(caps as u64))
}

/// Whether `/proc/self/status` gives the process a capability that lets it
/// count events.
pub open spec fn status_grants(status: Seq<char>) -> bool {
    exists|i: int|
        0 <= i < lines_of(status).len() && line_grants(#[trigger] lines_of(status)[i])
}

fn check_caps(caps: u64) -> (b: bool)
    ensures
        b == may_count(caps),
{
    assert((caps & 0x40_0020_0000 != 0) == ((caps / 0x40_0000_0000) % 2 == 1 || (caps / 0x20_0000)
        % 2 == 1)) by (bit_vector);
    caps & 0x40_0020_0000 != 0
}

fn check_line(line: &Vec<char>) -> (b: bool)
    ensures
        b == line_grants(line@),
{
    if !has_prefix(line, "CapEff:\t") {
        return false;
    }
    let from = to_chars("CapEff:\t").len();
    let hex = slice_chars(line, from, line.len());
    assert(hex@ =~= line@.skip(from as int));
    match read_hex(&trim(&hex)) {
        Ok(caps) => check_caps(caps),
        Err(_) => false,
    }
}

/// Whether the process may count events, given what `perf_event_paranoid`
/// holds, whether the process runs as root, and its `/proc/self/status`.
pub fn check_perf_privilege(
    paranoid: Option<&str>,
    root: bool,
    status: Option<&str>,
) -> (out: Result<(), PrivilegeError>)
    ensures
        ({
            let level = paranoid_level(
                match paranoid {
                    Some(s) => Some(s@),
                    None => None,
                },
            );
            let granted = status is Some && status_grants(status->0@);
            match out {
                Ok(()) => level <= 1 || root || granted,
                Err(e) => !(level <= 1 || root || granted) && e.paranoid == level,
            }
        }),
{
    let level: i32 = match paranoid {
        None => 2,
        Some(s) => match read_i32(&trim(&to_chars(s))) {
            Ok(level) => level,
            Err(_) => 2,
        },
    };
    if level <= 1 || root {
        return Ok(());
    }
    if let Some(s) = status {
        let all = lines(&to_chars(s));
        for i in 0..all.len()
            invariant
                all.deep_view() == lines_of(s@),
                forall|k: int| 0 <= k < i ==> !line_grants(#[trigger] lines_of(s@)[k]),
                status == Some(s),
        {
            assert(all@[i as int]@ =~= lines_of(s@)[i as int]);
            if check_line(&all[i]) {
                assert(lines_of(s@).len() == all.len());
                return Ok(());
            }
        }
    }
    Err(PrivilegeError { paranoid: level })
}

// ─── Number of counters ──────────────────────────────────────────────────────

/// The most counters that are looked for.
pub const MAX_COUNTERS: usize = 32;

/// Whether `probe` says yes to the numbers up to `t` and no to the others.
pub open spec fn threshold<F: Fn(usize) -> bool>(probe: F, t: int) -> bool {
    forall|n: usize, b: bool|
        1 <= n <= MAX_COUNTERS && #[trigger] call_ensures(probe, (n,), b) ==> b == (n <= t)
}

/// The search for the number of counters: what is left between `low` and
/// `high`, and the largest number so far that can be opened.
#[derive(Debug, Clone, Copy, PartialEq, Eq, Structural)]
pub struct CounterSearch {
    pub low: usize,
    pub high: usize,
    pub last_good: usize,
}

impl CounterSearch {
    /// The search at its start.
    pub open spec fn begun() -> Self {
        CounterSearch { low: 1, high: MAX_COUNTERS, last_good: 1 }
    }

    /// Whether the search is over.
    pub open spec fn over(self) -> bool {
        self.low > self.high
    }

    /// The number that is tried next, in the middle of what is left.
    pub open spec fn middle(self) -> usize {
        ((self.low + self.high) / 2) as usize
    }

    /// The search after the middle was tried.
    pub open spec fn narrowed(self, yes: bool) -> Self {
        if yes {
            CounterSearch {
                low: (self.middle() + 1) as usize,
                high: self.high,
                last_good: self.middle(),
            }
        } else {
            CounterSearch {
                low: self.low,
                high: (self.middle() - 1) as usize,
                last_good: self.last_good,
            }
        }
    }

    /// Whether the bounds of the search agree.
    pub open spec fn wf(self) -> bool {
        &&& 1 <= self.low <= self.high + 1
        &&& self.high <= MAX_COUNTERS
        &&& self.last_good == if self.low == 1 {
            1
        } else {
            self.low - 1
        }
    }

    /// The search at its start.
    pub fn new() -> (search: Self)
        ensures
            search == Self::begun(),
            search.wf(),
    {
        CounterSearch { low: 1, high: MAX_COUNTERS, last_good: 1 }
    }

    /// The number to try next, or none if the search is over.
    pub fn next(&self) -> (n: Option<usize>)
        requires
            self.wf(),
        ensures
            n == if self.over() {
                None
            } else {
                Some(self.middle())
            },
            n matches Some(m) ==> self.low <= m <= self.high,
    {
        if self.low > self.high {
            None
        } else {
            Some((self.low + self.high) / 2)
        }
    }

    /// Goes on by whether that many events can be opened together.
    pub fn step(&mut self, yes: bool)
        requires
            old(self).wf(),
            !old(self).over(),
        ensures
            *final(self) == old(self).narrowed(yes),
            final(self).wf(),
            (final(self).high + 1 - final(self).low) * 2 <= old(self).high + 1 - old(self).low,
    {
        let mid: usize = (self.low + self.high) / 2;
        if yes {
            self.last_good = mid;
            self.low = mid + 1;
        } else {
            self.high = mid - 1;
        }
    }
}

/// The search after some answers.
pub open spec fn search_after(answers: Seq<bool>) -> CounterSearch
    decreases answers.len(),
{
    if answers.len() == 0 {
        CounterSearch::begun()
    } else {
        let before = search_after(answers.drop_last());
        if before.over() {
            before
        } else {
            before.narrowed(answers.last())
        }
    }
}

/// Whether an answer is what `probe` said of the number that was tried after
/// the answers before it.
#[verifier::opaque]
pub open spec fn answered<F: Fn(usize) -> bool>(probe: F, before: Seq<bool>, answer: bool) -> bool {
    !search_after(before).over() && call_ensures(probe, (search_after(before).middle(),), answer)
}

/// Whether answers are what `probe` said in a search, one for each number that
/// was tried, and none after its end.
pub open spec fn searched<F: Fn(usize) -> bool>(probe: F, answers: Seq<bool>) -> bool {
    forall|k: int|
        0 <= k < answers.len() ==> answered(probe, answers.take(k), #[trigger] answers[k])
}

/// How many numbers can be left after some answers.
pub open spec fn most_left(answers: nat) -> nat
    decreases answers,
{
    if answers == 0 {
        MAX_COUNTERS as nat
    } else {
        most_left((answers - 1) as nat) / 2
    }
}

proof fn lemma_search(answers: Seq<bool>)
    ensures
        search_after(answers).wf(),
        search_after(answers).high + 1 - search_after(answers).low <= most_left(answers.len()),
    decreases answers.len(),
{
    if answers.len() > 0 {
        lemma_search(answers.drop_last());
    }
}

/// Six answers end the search, whatever they are.
pub proof fn law_six_probes(answers: Seq<bool>)
    requires
        answers.len() >= 6,
    ensures
        search_after(answers).over(),
    decreases answers.len(),
{
    if answers.len() == 6 {
        lemma_search(answers);
        reveal_with_fuel(most_left, 7);
    } else {
        law_six_probes(answers.drop_last());
    }
}

proof fn lemma_searched_more<F: Fn(usize) -> bool>(probe: F, answers: Seq<bool>, yes: bool)
    requires
        searched(probe, answers),
        answered(probe, answers, yes),
    ensures
        searched(probe, answers.push(yes)),
{
    let longer = answers.push(yes);
    assert forall|k: int| 0 <= k < longer.len() implies answered(
        probe,
        longer.take(k),
        #[trigger] longer[k],
    ) by {
        if k < answers.len() {
            assert(longer.take(k) =~= answers.take(k));
            assert(answered(probe, answers.take(k), answers[k]));
        } else {
            assert(longer.take(k) =~= answers);
        }
    }
}

proof fn lemma_searched_short<F: Fn(usize) -> bool>(probe: F, answers: Seq<bool>)
    requires
        searched(probe, answers),
    ensures
        answers.len() <= 6,
{
    if answers.len() > 6 {
        law_six_probes(answers.take(6));
        assert(answered(probe, answers.take(6), answers[6]));
        reveal(answered);
    }
}

/// The number of counters, found by halving: `probe` tells whether that many
/// events can be opened together, and is asked six times at most. The number
/// is 1 at least.
pub fn detect_pmu_counters<F: Fn(usize) -> bool>(probe: &F) -> (n: usize)
    requires
        forall|n: usize| 1 <= n <= MAX_COUNTERS ==> call_requires(*probe, (n,)),
    ensures
        1 <= n <= MAX_COUNTERS,
        n == 1 || call_ensures(*probe, (n,), true),
        n == MAX_COUNTERS || call_ensures(*probe, ((n + 1) as usize,), false) || call_ensures(
            *probe,
            (n,),
            false,
        ),
        exists|answers: Seq<bool>| #[trigger]
            searched(*probe, answers) && answers.len() <= 6 && search_after(answers).over() && n
                == search_after(answers).last_good,
        forall|t: int|
            #![trigger threshold(*probe, t)]
            threshold(*probe, t) ==> n == if t < 1 {
                1
            } else if t > MAX_COUNTERS {
                MAX_COUNTERS as int
            } else {
                t
            },
{
    let mut search = CounterSearch::new();
    let ghost mut answers: Seq<bool> = Seq::empty();
    loop
        invariant
            forall|n: usize| 1 <= n <= MAX_COUNTERS ==> call_requires(*probe, (n,)),
            search.wf(),
            search == search_after(answers),
            searched(*probe, answers),
            search.low > 1 ==> call_ensures(*probe, (search.last_good,), true),
            search.high == MAX_COUNTERS || call_ensures(
                *probe,
                ((search.high + 1) as usize,),
                false,
            ),
        ensures
            search.over(),
        decreases search.high + 1 - search.low,
    {
        let mid = match search.next() {
            Some(mid) => mid,
            None => {
                break;
            },
        };
        let yes = probe(mid);
        search.step(yes);
        proof {
            assert(answered(*probe, answers, yes)) by {
                reveal(answered);
            }
            lemma_searched_more(*probe, answers, yes);
            assert(answers.push(yes).drop_last() =~= answers);
            answers = answers.push(yes);
        }
    }
    proof {
        lemma_searched_short(*probe, answers);
        assert forall|t: int| #[trigger] threshold(*probe, t) implies search.last_good == if t < 1 {
            1
        } else if t > MAX_COUNTERS {
            MAX_COUNTERS as int
        } else {
            t
        } by {
            if search.low > 1 {
                assert(call_ensures(*probe, (search.last_good,), true));
            }
            if search.high < MAX_COUNTERS {
                assert(call_ensures(*probe, ((search.high + 1) as usize,), false));
            }
        }
    }
    search.last_good
}

/// Codes of events that every Arm CPU has, in the order in which they are
/// tried.
pub open spec fn arch_events() -> Seq<u64> {
    seq![
        0x08, 0x11, 0x1B, 0x01, 0x03, 0x04, 0x06, 0x10,
        0x12, 0x13, 0x14, 0x15, 0x16, 0x17, 0x18, 0x19,
        0x1D, 0x00, 0x02, 0x05, 0x09, 0x0A, 0x0C, 0x0D,
        0x1A, 0x1E, 0x21, 0x22, 0x23, 0x24, 0x25, 0x26,
    ]
}

/// The codes that are tried are all different.
pub proof fn law_arch_events_differ(i: int, j: int)
    requires
        0 <= i < j < arch_events().len(),
    ensures
        arch_events()[i] != arch_events()[j],
        arch_events().len() == MAX_COUNTERS,
{
}

/// The codes of the events that are opened together to see whether that many
/// can be: different ones, beyond the known ones in the space that is left to
/// implementations.
pub fn probe_codes(n: usize) -> (codes: Vec<u64>)
    ensures
        codes.len() == n,
        forall|i: int|
            0 <= i < n ==> #[trigger] codes@[i] == if i < 32 {
                arch_events()[i]
            } else {
                arch_events()[i % 32] | 0x8000
            },
{
    let known: Vec<u64> = vec![
        0x08, 0x11, 0x1B, 0x01, 0x03, 0x04, 0x06, 0x10,
        0x12, 0x13, 0x14, 0x15, 0x16, 0x17, 0x18, 0x19,
        0x1D, 0x00, 0x02, 0x05, 0x09, 0x0A, 0x0C, 0x0D,
        0x1A, 0x1E, 0x21, 0x22, 0x23, 0x24, 0x25, 0x26,
    ];
    assert(known@ =~= arch_events());
    let mut codes: Vec<u64> = Vec::new();
    for i in 0..n
        invariant
            known@ == arch_events(),
            known.len() == 32,
            codes.len() == i,
            forall|k: int|
                0 <= k < i ==> #[trigger] codes@[k] == if k < 32 {
                    arch_events()[k]
                } else {
                    arch_events()[k % 32] | 0x8000
                },
    {
        let code = known[i % 32];
        if i >= 32 {
            codes.push(code | 0x8000);
        } else {
            codes.push(code);
        }
    }
    codes
}

// ─── CPU identification ──────────────────────────────────────────────────────

/// The file with the identification register of a core.
pub open spec fn midr_path_of(core: i32) -> Seq<char> {
    "/sys/devices/system/cpu/cpu"@ + signed_text(core as int) + "/regs/identification/midr_el1"@
}

/// The file with the identification register of a core.
pub fn midr_path(core: i32) -> (out: String)
    ensures
        out@ == midr_path_of(core),
{
    let mut out = "/sys/devices/system/cpu/cpu".to_owned();
    out.append(to_signed_decimal(core).as_str());
    out.append("/regs/identification/midr_el1");
    out
}

/// A text that is no identification register.
#[derive(Debug)]
pub struct MidrError {
    pub content: String,
    pub source: IntError,
}

impl MidrError {
    /// The error as a message.
    pub fn message(&self) -> (out: String)
        ensures
            out@ == "Invalid MIDR value: "@ + self.content@,
    {
        let mut out = "Invalid MIDR value: ".to_owned();
        out.append(self.content.as_str());
        out
    }
}

/// The identification register that a text holds: a hexadecimal number, with or
/// without `0x`, and white space around it.
pub open spec fn midr_of(content: Seq<char>) -> Result<int, IntError> {
    integer_of(without_hex_prefix(trimmed(content)), 16, 0, u64::MAX as int)
}

/// Reads an identification register.
pub fn parse_midr(content: &str) -> (out: Result<u64, MidrError>)
    ensures
        match out {
            Ok(midr) => midr_of(content@) == Ok::<int, IntError>(midr as int),
            Err(e) => midr_of(content@) == Err::<int, IntError>(e.source) && e.content@ == trimmed(
                content@,
            ),
        },
{
    let text = trim(&to_chars(content));
    match read_hex(&strip_hex_prefix(&text)) {
        Ok(midr) => Ok(midr),
        Err(source) => Err(MidrError { content: from_chars(&text), source }),
    }
}

/// The implementer of a CPU: bits 24 to 31 of its identification register.
pub open spec fn implementer_of(midr: u64) -> u64 {
    (midr / 0x100_0000) % 0x100
}

/// The part number of a CPU: bits 4 to 15 of its identification register.
pub open spec fn part_of(midr: u64) -> u64 {
    (midr / 0x10) % 0x1000
}

/// The id of a CPU: its implementer above its part number.
pub fn cpu_id_from_midr(midr: u64) -> (id: u64)
    ensures
        id == implementer_of(midr) * 0x1000 + part_of(midr),
{
    assert(((((midr >> 24) & 0xFF) << 12) | ((midr >> 4) & 0xFFF)) == ((midr / 0x100_0000) % 0x100)
        * 0x1000 + (midr / 0x10) % 0x1000) by (bit_vector);
    let implementer = (midr >> 24) & 0xFF;
    let part_num = (midr >> 4) & 0xFFF;
    (implementer << 12) | part_num
}

/// The implementer of a CPU.
pub fn implementer_from_midr(midr: u64) -> (implementer: u64)
    ensures
        implementer == implementer_of(midr),
{
    assert((midr >> 24) & 0xFF == (midr / 0x100_0000) % 0x100) by (bit_vector);
    (midr >> 24) & 0xFF
}

/// The part number of a CPU.
pub fn part_from_midr(midr: u64) -> (part: u64)
    ensures
        part == part_of(midr),
{
    assert((midr >> 4) & 0xFFF == (midr / 0x10) % 0x1000) by (bit_vector);
    (midr >> 4) & 0xFFF
}

/// The fields of an identification register stand in their places: from the top
/// the implementer in eight bits, the variant and the architecture in four bits
/// each, the part number in twelve bits, and the revision in four. What stands
/// above them does not matter.
pub proof fn law_register_fields(
    above: u64,
    implementer: u64,
    variant: u64,
    architecture: u64,
    part: u64,
    revision: u64,
    register: u64,
)
    requires
        implementer < 0x100,
        variant < 16,
        architecture < 16,
        part < 0x1000,
        revision < 16,
        register == above * 0x1_0000_0000 + implementer * 0x100_0000 + variant * 0x10_0000
            + architecture * 0x1_0000 + part * 0x10 + revision,
    ensures
        implementer_of(register) == implementer,
        part_of(register) == part,
        forall|out: u64| #[trigger]
            call_ensures(implementer_from_midr, (register,), out) ==> out == implementer,
        forall|out: u64| #[trigger] call_ensures(part_from_midr, (register,), out) ==> out == part,
        forall|out: u64| #[trigger]
            call_ensures(cpu_id_from_midr, (register,), out) ==> out == implementer * 0x1000 + part,
{
    let high = above * 0x100 + implementer;
    let low = variant * 0x10_0000 + architecture * 0x1_0000 + part * 0x10 + revision;
    lemma_parted(register as int, 0x100_0000, high, low);
    lemma_parted(high, 0x100, above as int, implementer as int);
    let front = above * 0x1000_0000 + implementer * 0x10_0000 + variant * 0x1_0000 + architecture
        * 0x1000 + part;
    lemma_parted(register as int, 0x10, front, revision as int);
    lemma_parted(
        front,
        0x1000,
        above * 0x1_0000 + implementer * 0x100 + variant * 0x10 + architecture,
        part as int,
    );
}

/// A number that is made of multiples and a rest gives them back.
proof fn lemma_parted(n: int, by: int, times: int, rest: int)
    requires
        n == times * by + rest,
        0 <= rest < by,
    ensures
        n / by == times,
        n % by == rest,
{
    vstd::arithmetic::div_mod::lemma_fundamental_div_mod_converse(n, by, times, rest);
}

/// CPUs of the same implementer and part have the same id, and no others have:
/// variant and revision do not bear on it.
pub proof fn law_cpu_id(a: u64, b: u64)
    ensures
        implementer_of(a) * 0x1000 + part_of(a) == implementer_of(b) * 0x1000 + part_of(b)
            <==> implementer_of(a) == implementer_of(b) && part_of(a) == part_of(b),
{
}

// ─── What the kernel is told and what it says ────────────────────────────────

proof fn lemma_four_bytes(order: ByteOrder, bytes: Seq<u8>, at: int)
    requires
        0 <= at,
        at + 4 <= bytes.len(),
    ensures
        word_value(order, bytes.subrange(at, at + 4)) == four_bytes(order, bytes, at),
{
    let part = bytes.subrange(at, at + 4);
    let low = match order {
        ByteOrder::Little => part,
        ByteOrder::Big => part.reverse(),
    };
    lemma_four_low(low);
}

proof fn lemma_four_low(low: Seq<u8>)
    requires
        low.len() == 4,
    ensures
        low_value(low) == low[0] + 0x100 * low[1] + 0x1_0000 * low[2] + 0x100_0000 * low[3],
{
    reveal_with_fuel(low_value, 5);
}

/// A word that stands in bytes is read where it stands.
proof fn lemma_word_at(order: ByteOrder, value: nat, width: nat, bytes: Seq<u8>, at: int)
    requires
        value < word_limit(width),
        0 <= at,
        at + width <= bytes.len(),
        bytes.subrange(at, at + width) == word_bytes(order, value, width),
    ensures
        word_value(order, bytes.subrange(at, at + width)) == value,
{
    law_word_round_trip(order, value, width);
}

/// The attributes of an event are a hundred and twenty-eight bytes: the type of
/// raw events, the size, the code of the event, the wish for both times with
/// each read, and the flags that leave out the kernel and the hypervisor, with
/// the one that starts it disabled if asked for. All other bytes are zero.
pub proof fn law_attributes(order: ByteOrder, config: u64, disabled: bool, attr: PerfEventAttr)
    requires
        call_ensures(PerfEventAttr::new_raw_event, (order, config, disabled), attr),
    ensures
        attr.buf@.len() == 128,
        four_bytes(order, attr.buf@, 0) == 4,
        four_bytes(order, attr.buf@, 4) == 128,
        eight_bytes(order, attr.buf@, 8) == config,
        eight_bytes(order, attr.buf@, 32) == 1 + 2,
        eight_bytes(order, attr.buf@, 40) == 32 + 64 + if disabled {
            1int
        } else {
            0
        },
        forall|i: int| 16 <= i < 32 || 48 <= i < 128 ==> #[trigger] attr.buf@[i] == 0,
{
    lemma_attributes(order, config, disabled);
}

proof fn lemma_attributes(order: ByteOrder, config: u64, disabled: bool)
    ensures
        ({
            let buf = attr_bytes(order, config, disabled);
            &&& buf.len() == 128
            &&& four_bytes(order, buf, 0) == 4
            &&& four_bytes(order, buf, 4) == 128
            &&& eight_bytes(order, buf, 8) == config
            &&& eight_bytes(order, buf, 32) == 3
            &&& eight_bytes(order, buf, 40) == if disabled {
                97int
            } else {
                96
            }
            &&& forall|i: int| 16 <= i < 32 || 48 <= i < 128 ==> #[trigger] buf[i] == 0
        }),
{
    let buf = attr_bytes(order, config, disabled);
    let flags: nat = if disabled {
        97
    } else {
        96
    };
    reveal_with_fuel(word_limit, 9);
    law_word_round_trip(order, 4, 4);
    law_word_round_trip(order, 128, 4);
    law_word_round_trip(order, config as nat, 8);
    law_word_round_trip(order, 3, 8);
    law_word_round_trip(order, flags, 8);
    assert(buf.subrange(0, 4) =~= word_bytes(order, 4, 4));
    assert(buf.subrange(4, 8) =~= word_bytes(order, 128, 4));
    assert(buf.subrange(8, 16) =~= word_bytes(order, config as nat, 8));
    assert(buf.subrange(32, 40) =~= word_bytes(order, 3, 8));
    assert(buf.subrange(40, 48) =~= word_bytes(order, flags, 8));
    lemma_four_bytes(order, buf, 0);
    lemma_four_bytes(order, buf, 4);
    lemma_eight_bytes(order, buf, 8);
    lemma_eight_bytes(order, buf, 32);
    lemma_eight_bytes(order, buf, 40);
}

/// The events of a group are opened in order with their codes; the first one
/// leads the group and starts disabled, and no other one does.
pub proof fn law_opened_steps(order: ByteOrder, codes: &Vec<u64>, steps: Vec<OpenStep>, i: int)
    requires
        call_ensures(open_steps, (order, codes), steps),
        0 <= i < codes.len(),
    ensures
        steps.len() == codes.len(),
        steps@[i].leads <==> i == 0,
        eight_bytes(order, steps@[i].attr.buf@, 8) == codes@[i],
        eight_bytes(order, steps@[i].attr.buf@, 40) == 96 + if i == 0 {
            1int
        } else {
            0
        },
{
    lemma_attributes(order, codes@[i], i == 0);
}

// ─── What the values of cores and processes come to ──────────────────────────

/// The readings of an event, one process after another and in each one core
/// after another.
pub open spec fn readings_in_order<T>(
    readings: Seq<Vec<Vec<Option<T>>>>,
    cores: nat,
    group: int,
    event: int,
) -> Seq<Option<T>> {
    Seq::new(
        readings.len(),
        |p: int| Seq::new(cores, |c: int| readings[p]@[group * cores + c]@[event]),
    ).flatten()
}

/// What readings add up to, from a start; nothing if one of them is missing.
pub open spec fn added_up<T>(
    values: Seq<Option<T>>,
    start: T,
    add_two: spec_fn(T, T) -> T,
) -> Option<T> {
    if values.contains(None) {
        None
    } else {
        Some(values.fold_left(start, |sum: T, v: Option<T>| add_two(sum, v->0)))
    }
}

proof fn lemma_added_up<T, F: Fn(T, T) -> T>(
    plus: F,
    start: T,
    values: Seq<Option<T>>,
    sum: Option<T>,
    add_two: spec_fn(T, T) -> T,
)
    requires
        sums_to(plus, start, values, sum),
        forall|a: T, b: T, c: T| #[trigger] call_ensures(plus, (a, b), c) ==> c == add_two(a, b),
    ensures
        sum == added_up(values, start, add_two),
    decreases values.len(),
{
    if values.len() > 0 {
        let front = values.drop_last();
        let before = choose|before: Option<T>|
            sums_to(plus, start, front, before) && #[trigger] accumulates(
                plus,
                before,
                values.last(),
                sum,
            );
        lemma_added_up(plus, start, front, before, add_two);
        assert(values =~= front.push(values.last()));
        if values.contains(None) {
            let i = values.index_of(None);
            if i < front.len() {
                assert(front[i] is None);
                assert(front.contains(None));
            }
        } else {
            if front.contains(None) {
                let i = front.index_of(None);
                assert(values[i] is None);
            }
            assert(values[values.len() - 1] == values.last());
        }
    }
}

pub(crate) proof fn lemma_map_flatten<A, B>(parts: Seq<Seq<A>>, f: spec_fn(A) -> B)
    ensures
        parts.flatten().map_values(f) == parts.map_values(
            |part: Seq<A>| part.map_values(f),
        ).flatten(),
    decreases parts.len(),
{
    let g = |part: Seq<A>| part.map_values(f);
    if parts.len() > 0 {
        let rest = parts.drop_first();
        lemma_map_flatten(rest, f);
        assert(parts.map_values(g).drop_first() =~= rest.map_values(g));
        assert((parts[0] + rest.flatten()).map_values(f) =~= parts[0].map_values(f)
            + rest.flatten().map_values(f));
    } else {
        assert(parts.flatten().map_values(f) =~= parts.map_values(g).flatten());
    }
}

proof fn lemma_readings_in_order<T>(
    readings: Seq<Vec<Vec<Option<T>>>>,
    cores: nat,
    group: int,
    event: int,
)
    requires
        group >= 0,
        forall|p: int|
            0 <= p < readings.len() ==> group * cores + cores <= (#[trigger] readings[p])@.len(),
    ensures
        column(group_readings(readings, cores, group), event) == readings_in_order(
            readings,
            cores,
            group,
            event,
        ),
{
    let (from, to) = (group * cores, group * cores + cores);
    assert(from >= 0) by (nonlinear_arith)
        requires
            from == group * cores,
            group >= 0,
            cores >= 0,
    ;
    let f = |process: Vec<Vec<Option<T>>>| readings_of(process@.subrange(from, to));
    let g = |values: Seq<Option<T>>| values[event];
    let h = |part: Seq<Seq<Option<T>>>| part.map_values(g);
    let parts = readings.map_values(f);
    lemma_map_flatten(parts, g);
    let listed = Seq::new(
        readings.len(),
        |p: int| Seq::new(cores, |c: int| readings[p]@[group * cores + c]@[event]),
    );
    assert(parts.map_values(h) =~= listed) by {
        assert forall|p: int| 0 <= p < readings.len() implies parts.map_values(h)[p]
            == listed[p] by {
            assert(parts[p] == readings_of(readings[p]@.subrange(from, to)));
            assert(parts.map_values(h)[p] =~= listed[p]);
        }
    }
}

/// The value of an event is what its readings on all cores of all processes add
/// up to, and there is none if one of them is missing.
pub proof fn law_combined<T: Copy, F: Fn(T, T) -> T>(
    event_names: &Vec<Vec<String>>,
    readings: &Vec<Vec<Vec<Option<T>>>>,
    cores: usize,
    start: T,
    plus: &F,
    add_two: spec_fn(T, T) -> T,
    out: EventResults<T>,
    g: int,
    k: int,
)
    requires
        call_ensures(combine_readings::<T, F>, (event_names, readings, cores, start, plus), out),
        forall|a: T, b: T, c: T| #[trigger] call_ensures(*plus, (a, b), c) ==> c == add_two(a, b),
        forall|p: int|
            0 <= p < readings.len() ==> (#[trigger] readings@[p]).len() == event_names.len()
                * cores,
        0 <= g < event_names.len(),
        0 <= k < event_names@[g].len(),
        forall|h: int|
            0 <= h < event_names.len() && h != g ==> #[trigger] event_names.deep_view()[h]
                != event_names.deep_view()[g],
    ensures
        exists|i: int|
            0 <= i < out@.len() && (#[trigger] out@[i]).0 == event_names.deep_view()[g]
                && out@[i].1.len() == event_names@[g].len() && out@[i].1[k] == added_up(
                readings_in_order(readings@, cores as nat, g, k),
                start,
                add_two,
            ),
{
    let names = event_names.deep_view();
    let values = choose|values: Seq<Seq<Option<T>>>|
        #![trigger named_values(event_names.deep_view(), values)]
        combines(*plus, start, event_names.deep_view(), readings@, cores as nat, values) && out@
            == gathered(named_values(event_names.deep_view(), values));
    let pairs = named_values(names, values);
    assert(names[g].len() == event_names@[g].len());
    assert(group_sums(
        *plus,
        start,
        names[g].len(),
        group_readings(readings@, cores as nat, g),
        values[g],
    ));
    assert(sums_to(
        *plus,
        start,
        column(group_readings(readings@, cores as nat, g), k),
        values[g][k],
    ));
    assert(g * cores + cores <= event_names.len() * cores) by (nonlinear_arith)
        requires
            0 <= g < event_names.len(),
            cores >= 0,
    ;
    lemma_readings_in_order(readings@, cores as nat, g, k);
    lemma_added_up(
        *plus,
        start,
        readings_in_order(readings@, cores as nat, g, k),
        values[g][k],
        add_two,
    );
    law_gathered(pairs, names[g]);
    lemma_place_of(out@, names[g]);
    assert(pairs[g] == (names[g], values[g]));
    let i = place_of(out@, names[g]) as int;
    assert(out@[i].1 == values[g]);
}

/// A sum is shown if it is valid.
pub proof fn law_finalized<T: Copy>(vals: &Vec<T>, valid: &Vec<bool>, out: Vec<Option<T>>, i: int)
    requires
        call_ensures(finalize_values::<T>, (vals, valid), out),
        0 <= i < vals.len(),
        vals.len() == valid.len(),
    ensures
        out.len() == vals.len(),
        valid@[i] ==> out@[i] == Some(vals@[i]),
        !valid@[i] ==> out@[i] is None,
{
}

// ─── Who may count, and how much ─────────────────────────────────────────────

/// Everyone may count where the level is one or less, and the superuser may
/// always; without a status nobody else may.
pub proof fn law_privilege_levels(
    level: i32,
    paranoid: &str,
    root: bool,
    status: Option<&str>,
    out: Result<(), PrivilegeError>,
)
    requires
        call_ensures(check_perf_privilege, (Some(paranoid), root, status), out),
        paranoid@ == signed_text(level as int) + seq!['\n'],
    ensures
        level <= 1 || root ==> out is Ok,
        level > 1 && !root && status is None ==> (out matches Err(e) && e.paranoid == level),
{
    let text = signed_text(level as int);
    lemma_signed_text_bare(level);
    law_trimmed(Seq::empty(), text, seq!['\n']);
    assert(Seq::empty() + text + seq!['\n'] =~= paranoid@);
    law_signed_round_trip(level);
}

proof fn lemma_signed_text_bare(n: i32)
    ensures
        signed_text(n as int).len() > 0,
        forall|i: int|
            0 <= i < signed_text(n as int).len() ==> !white_space(
                #[trigger] signed_text(n as int)[i],
            ),
{
    let m = if n < 0 {
        -(n as int)
    } else {
        n as int
    } as nat;
    law_numeral(m, 10);
    let text = signed_text(n as int);
    assert forall|i: int| 0 <= i < text.len() implies !white_space(#[trigger] text[i]) by {
        if n < 0 {
            if i > 0 {
                assert(is_figure(numeral(m, 10)[i - 1], 10));
                assert(text[i] == numeral(m, 10)[i - 1]);
            }
        } else {
            assert(is_figure(numeral(m, 10)[i], 10));
        }
    }
}

/// Below that the effective capabilities in the status decide: one of the bits
/// 38 and 21 must be set.
pub proof fn law_capabilities(
    level: i32,
    paranoid: &str,
    status: &str,
    lines: Seq<(Seq<char>, bool)>,
    i: int,
    digits: Seq<char>,
    caps: u64,
    out: Result<(), PrivilegeError>,
)
    requires
        call_ensures(check_perf_privilege, (Some(paranoid), false, Some(status)), out),
        paranoid@ == signed_text(level as int) + seq!['\n'],
        level > 1,
        status@ == glued(ended_lines(lines, Seq::empty()), '\n'),
        forall|j: int|
            0 <= j < lines.len() ==> !(#[trigger] lines[j]).0.contains('\n') && (lines[j].0.len()
                == 0 || lines[j].0.last() != '\r'),
        0 <= i < lines.len(),
        lines[i].0 == "CapEff:\t"@ + digits,
        digits.len() > 0,
        forall|k: int| 0 <= k < digits.len() ==> is_figure(#[trigger] digits[k], 16),
        reckoned(digits, 16) == caps,
        forall|j: int|
            0 <= j < lines.len() && j != i ==> !starts_with((#[trigger] lines[j]).0, "CapEff:\t"@),
    ensures
        out is Ok <==> caps & (1u64 << 38) != 0 || caps & (1u64 << 21) != 0,
        out matches Err(e) ==> e.paranoid == level,
{
    let text = signed_text(level as int);
    lemma_signed_text_bare(level);
    law_trimmed(Seq::empty(), text, seq!['\n']);
    assert(Seq::empty() + text + seq!['\n'] =~= paranoid@);
    law_signed_round_trip(level);
    assert(!Seq::<char>::empty().contains('\n'));
    law_lines(lines, Seq::empty());
    let found = lines_of(status@);
    assert(found =~= lines.map_values(|line: (Seq<char>, bool)| line.0));
    assert forall|k: int| 0 <= k < digits.len() implies !white_space(#[trigger] digits[k]) by {
        assert(is_figure(digits[k], 16));
    }
    law_trimmed(Seq::empty(), digits, Seq::empty());
    assert(Seq::empty() + digits + Seq::empty() =~= digits);
    law_integers(digits, 16, 0, u64::MAX as int);
    let line = lines[i].0;
    assert(line.take("CapEff:\t"@.len() as int) =~= "CapEff:\t"@);
    assert(line.skip("CapEff:\t"@.len() as int) =~= digits);
    assert(found[i] == line);
    assert(line_grants(line) <==> may_count(caps));
    assert(((caps / 0x40_0000_0000) % 2 == 1) == (caps & (1u64 << 38) != 0)) by (bit_vector);
    assert(((caps / 0x20_0000) % 2 == 1) == (caps & (1u64 << 21) != 0)) by (bit_vector);
    assert forall|j: int| 0 <= j < found.len() && line_grants(#[trigger] found[j]) implies j
        == i by {
        assert(found[j] == lines[j].0);
    }
}

/// If a core lets that many events and no more be opened together, that many
/// counters are found, within one and thirty-two.
pub proof fn law_counters_found<F: Fn(usize) -> bool>(probe: &F, counters: usize, found: usize)
    requires
        call_ensures(detect_pmu_counters::<F>, (probe,), found),
        forall|n: usize, b: bool| #[trigger] call_ensures(*probe, (n,), b) ==> b == (n <= counters),
    ensures
        counters < 1 ==> found == 1,
        1 <= counters <= 32 ==> found == counters,
        counters > 32 ==> found == 32,
{
    assert(threshold(*probe, counters as int));
}

/// Whether a code is one of the events that are tried first.
pub open spec fn is_known_code(code: u64) -> bool {
    ||| code <= 0x06
    ||| 0x08 <= code <= 0x0a
    ||| 0x0c <= code <= 0x0d
    ||| 0x10 <= code <= 0x1b
    ||| 0x1d <= code <= 0x1e
    ||| 0x21 <= code <= 0x26
}

/// The first thirty-two codes that are tried are those that every CPU has, each
/// once; further ones lie 0x8000 above them.
pub proof fn law_probed(n: usize, codes: Vec<u64>, i: int, code: u64)
    requires
        call_ensures(probe_codes, (n,), codes),
        0 <= i < n,
    ensures
        codes.len() == n,
        i < 32 ==> is_known_code(codes@[i]),
        32 <= i < 64 ==> codes@[i] == codes@[i - 32] + 0x8000,
        n >= 32 && is_known_code(code) ==> codes@.take(32).contains(code),
        forall|j: int| 0 <= j < i < 64 ==> codes@[i] != #[trigger] codes@[j],
{
    let known = arch_events();
    assert forall|k: int| 0 <= k < 32 implies is_known_code(#[trigger] known[k]) by {}
    assert forall|c: u64| is_known_code(c) implies c | 0x8000 == #[trigger] (c + 0x8000) by {
        assert(c <= 0x26 ==> c | 0x8000 == c + 0x8000) by (bit_vector);
    }
    if i >= 32 && i < 64 {
        let c = known[i - 32];
        assert(is_known_code(c));
        assert(c <= 0x26 ==> c | 0x8000 == c + 0x8000) by (bit_vector);
        assert(codes@[i - 32] == c);
        assert(i % 32 == i - 32);
    }
    assert forall|j: int| 0 <= j < i < 64 implies codes@[i] != #[trigger] codes@[j] by {
        if j >= 32 {
            let c = known[j - 32];
            assert(c <= 0x26 ==> c | 0x8000 == c + 0x8000) by (bit_vector);
            assert(j % 32 == j - 32);
            assert(known[i - 32] != known[j - 32]);
        } else if i < 32 {
            assert(known[i] != known[j]);
        }
    }
    if n >= 32 && is_known_code(code) {
        lemma_known_listed(code);
        let k = known.index_of(code);
        assert(codes@.take(32)[k] == code);
    }
}

proof fn lemma_known_listed(code: u64)
    requires
        is_known_code(code),
    ensures
        arch_events().contains(code),
{
    let known = arch_events();
    assert(known[17] == 0x00 && known[3] == 0x01 && known[18] == 0x02 && known[4] == 0x03 && known[5]
        == 0x04 && known[19] == 0x05 && known[6] == 0x06 && known[0] == 0x08 && known[20] == 0x09
        && known[21] == 0x0a && known[22] == 0x0c && known[23] == 0x0d && known[7] == 0x10
        && known[1] == 0x11 && known[8] == 0x12 && known[9] == 0x13 && known[10] == 0x14
        && known[11] == 0x15 && known[12] == 0x16 && known[13] == 0x17 && known[14] == 0x18
        && known[15] == 0x19 && known[24] == 0x1a && known[2] == 0x1b && known[16] == 0x1d
        && known[25] == 0x1e && known[26] == 0x21 && known[27] == 0x22 && known[28] == 0x23
        && known[29] == 0x24 && known[30] == 0x25 && known[31] == 0x26);
}

/// An identification register is read from hexadecimal digits, with `0x`, with
/// `0X` or without, and with white space around them.
pub proof fn law_midr_read(
    content: &str,
    left: Seq<char>,
    prefix: Seq<char>,
    digits: Seq<char>,
    right: Seq<char>,
    out: Result<u64, MidrError>,
)
    requires
        call_ensures(parse_midr, (content,), out),
        content@ == left + (prefix + digits) + right,
        forall|i: int| 0 <= i < left.len() ==> white_space(#[trigger] left[i]),
        forall|i: int| 0 <= i < right.len() ==> white_space(#[trigger] right[i]),
        prefix == seq!['0', 'x'] || prefix == seq!['0', 'X'] || prefix == Seq::<char>::empty(),
        digits.len() > 0,
        forall|i: int| 0 <= i < digits.len() ==> is_figure(#[trigger] digits[i], 16),
    ensures
        reckoned(digits, 16) <= u64::MAX ==> (out matches Ok(midr) && midr == reckoned(digits, 16)),
        reckoned(digits, 16) > u64::MAX ==> (out matches Err(e) && e.source
            == IntError::PosOverflow),
{
    let core = prefix + digits;
    assert(is_figure(digits[0], 16) && is_figure(digits[digits.len() - 1], 16));
    assert(core.last() == digits[digits.len() - 1]);
    assert(core[0] == '0' || core[0] == digits[0]);
    law_trimmed(left, core, right);
    law_hex_prefix(digits);
    if prefix.len() == 0 {
        assert(core =~= digits);
        if digits.len() > 1 {
            assert(is_figure(digits[1], 16));
        }
    }
    law_integers(digits, 16, 0, u64::MAX as int);
}

/// The sums of a span of readings are what the readings of each event add up to,
/// process after process and place after place.
pub proof fn law_span_summed<T: Copy, F: Fn(T, T) -> T>(
    events: usize,
    readings: &Vec<Vec<Vec<Option<T>>>>,
    from: usize,
    to: usize,
    start: T,
    plus: &F,
    add_two: spec_fn(T, T) -> T,
    values: Vec<Option<T>>,
    k: int,
)
    requires
        call_ensures(sum_group::<T, F>, (events, readings, from, to, start, plus), values),
        forall|a: T, b: T, c: T| #[trigger] call_ensures(*plus, (a, b), c) ==> c == add_two(a, b),
        from <= to,
        forall|p: int| 0 <= p < readings.len() ==> to <= (#[trigger] readings@[p]).len(),
        0 <= k < events,
    ensures
        values.len() == events,
        values@[k] == added_up(
            Seq::new(
                readings.len() as nat,
                |p: int| Seq::new((to - from) as nat, |c: int| readings@[p]@[from + c]@[k]),
            ).flatten(),
            start,
            add_two,
        ),
{
    let f = |process: Vec<Vec<Option<T>>>|
        readings_of(process@.subrange(from as int, to as int));
    let g = |row: Seq<Option<T>>| row[k];
    let h = |part: Seq<Seq<Option<T>>>| part.map_values(g);
    let parts = readings@.map_values(f);
    lemma_map_flatten(parts, g);
    let listed = Seq::new(
        readings.len() as nat,
        |p: int| Seq::new((to - from) as nat, |c: int| readings@[p]@[from + c]@[k]),
    );
    assert(parts.map_values(h) =~= listed) by {
        assert forall|p: int| 0 <= p < readings.len() implies parts.map_values(h)[p]
            == listed[p] by {
            assert(parts[p] == readings_of(readings@[p]@.subrange(from as int, to as int)));
            assert(parts.map_values(h)[p] =~= listed[p]);
        }
    }
    let column_k = column(span_readings(readings@, from as int, to as int), k);
    assert(sums_to(*plus, start, column_k, values@[k]));
    lemma_added_up(*plus, start, column_k, values@[k], add_two);
}

/// The register of a core stands in a file of its own, which has the number of
/// the core in its path.
pub proof fn law_midr_path(core: i32, out: String)
    requires
        call_ensures(midr_path, (core,), out),
    ensures
        out@ == "/sys/devices/system/cpu/cpu"@ + signed_text(core as int)
            + "/regs/identification/midr_el1"@,
{
}

/// A level that is not there or is no number counts as 2: nobody but the
/// superuser may count without a capability.
pub proof fn law_level_unknown(
    paranoid: Option<&str>,
    root: bool,
    status: Option<&str>,
    out: Result<(), PrivilegeError>,
)
    requires
        call_ensures(check_perf_privilege, (paranoid, root, status), out),
        paranoid matches Some(s) ==> integer_of(
            trimmed(s@),
            10,
            i32::MIN as int,
            i32::MAX as int,
        ) is Err,
    ensures
        root ==> out is Ok,
        !root && status is None ==> (out matches Err(e) && e.paranoid == 2),
{
}

/// Adding a value to a sum gives what the addition gives; adding a missing one
/// keeps the sum, and it is not valid any more. A sum never becomes valid again.
pub proof fn law_added<T, F: Fn(T, T) -> T>(
    plus: F,
    add_two: spec_fn(T, T) -> T,
    sum: T,
    valid: bool,
    value: Option<T>,
    new_sum: T,
    new_valid: bool,
)
    requires
        added(plus, sum, valid, value, new_sum, new_valid),
        forall|a: T, b: T, c: T| #[trigger] call_ensures(plus, (a, b), c) ==> c == add_two(a, b),
    ensures
        value matches Some(v) ==> new_sum == add_two(sum, v),
        value is None ==> new_sum == sum,
        new_valid <==> valid && value is Some,
{
}

/// While the number of counters is looked for, it stays between the bounds, and
/// each answer brings them closer together; when they have met, the largest
/// number that was good is the number of counters, or one.
pub proof fn law_search(search: CounterSearch, next: Option<usize>, counters: int)
    requires
        search.wf(),
        call_ensures(CounterSearch::next, (&search,), next),
        search.low - 1 <= counters <= search.high,
    ensures
        next matches Some(n) ==> {
            let after = search.narrowed(n <= counters);
            &&& search.low <= n <= search.high
            &&& after.wf()
            &&& after.low - 1 <= counters <= after.high
            &&& after.high - after.low < search.high - search.low
        },
        next is None ==> search.last_good == if counters < 1 {
            1
        } else {
            counters
        },
        CounterSearch::begun().wf() && CounterSearch::begun().low == 1
            && CounterSearch::begun().high == 32,
{
}

/// What the errors of counters say.
pub proof fn law_messages(
    open: &OpenError,
    a: String,
    privilege: &PrivilegeError,
    b: String,
    midr: &MidrError,
    c: String,
)
    requires
        call_ensures(OpenError::message, (open,), a),
        call_ensures(PrivilegeError::message, (privilege,), b),
        call_ensures(MidrError::message, (midr,), c),
    ensures
        a@ == "perf_event_open failed for event '"@ + open.event.name@ + "' (code 0x"@ + hex_text(
            open.event.code,
        ) + ") on cpu "@ + signed_text(open.cpu as int) + ": "@ + open.reason@,
        b@ == "perf_event_paranoid is "@ + signed_text(privilege.paranoid as int)
            + " and process lacks CAP_PERFMON/CAP_SYS_ADMIN. Set /proc/sys/kernel/perf_event_paranoid to -1 or run as root."@,
        c@ == "Invalid MIDR value: "@ + midr.content@,
{
}

/// A text that is no hexadecimal number is refused, and the error holds the text
/// without the white space around it.
pub proof fn law_midr_refused(
    content: &str,
    left: Seq<char>,
    core: Seq<char>,
    right: Seq<char>,
    out: Result<u64, MidrError>,
    i: int,
)
    requires
        call_ensures(parse_midr, (content,), out),
        content@ == left + core + right,
        forall|k: int| 0 <= k < left.len() ==> white_space(#[trigger] left[k]),
        forall|k: int| 0 <= k < right.len() ==> white_space(#[trigger] right[k]),
        core.len() == 0 || (!white_space(core[0]) && !white_space(core.last())),
    ensures
        out matches Err(e) ==> e.content@ == core,
        core.len() == 0 ==> (out matches Err(e) && e.source == IntError::Empty),
        2 <= i < core.len() && !is_figure(core[i], 16) && (i > 2 || core[i] != '+') ==> out is Err,
{
    law_trimmed(left, core, right);
    let bare = without_hex_prefix(core);
    law_hex_prefix(core);
    if core.len() == 0 {
        law_no_integers(core, 16, 0, u64::MAX as int);
    }
    if 2 <= i < core.len() && !is_figure(core[i], 16) && (i > 2 || core[i] != '+') {
        law_no_integers(bare, 16, 0, u64::MAX as int);
        let rest = core.skip(2);
        if core[0] == '0' && (core[1] == 'x' || core[1] == 'X') {
            law_hex_prefix(rest);
            assert(core =~= seq!['0', 'x'] + rest || core =~= seq!['0', 'X'] + rest);
            assert(bare == rest);
            assert(rest[i - 2] == core[i]);
        } else {
            assert(bare == core);
            assert(bare[i] == core[i]);
        }
    }
}

} // verus!
