use vstd::prelude::*;

verus! {

#[derive(Clone, Copy, PartialEq, Eq, Structural, Debug)]
pub enum ConversionError {
    Overflow,
    NonBinaryInput,
}

#[derive(Clone, Copy, PartialEq, Eq, Structural, Debug)]
pub enum ReadingError {
    WrongBitsCount,
    MalformedData(ConversionError),
    ParityBitMismatch,
    OutOfSpecValue,
}

/// All entries are single bits.
pub open spec fn all_bits(s: Seq<u8>) -> bool {
    forall|i: int| 0 <= i < s.len() ==> (#[trigger] s[i]) == 0 || s[i] == 1
}

/// The value of a bit string, most significant bit first.
pub open spec fn bits_val(s: Seq<u8>) -> int
    decreases s.len(),
{
    if s.len() == 0 {
        0
    } else {
        bits_val(s.drop_last()) * 2 + s.last()
    }
}

pub open spec fn pow2(n: nat) -> int
    decreases n,
{
    if n == 0 {
        1
    } else {
        2 * pow2((n - 1) as nat)
    }
}

pub proof fn lemma_bits_val_bound(s: Seq<u8>)
    requires
        all_bits(s),
    ensures
        0 <= bits_val(s) < pow2(s.len()),
    decreases s.len(),
{
    if s.len() > 0 {
        lemma_bits_val_bound(s.drop_last());
    }
}

/// Turn up to eight bits into a byte, most significant first: too
/// many bits overflow, and anything but zeroes and ones is refused.
pub fn convert(bits: &Vec<u8>) -> (r: Result<u8, ConversionError>)
    ensures
        match r {
            Ok(b) => bits@.len() <= 8 && all_bits(bits@) && b == bits_val(bits@),
            Err(e) => (e == ConversionError::Overflow && bits@.len() > 8) || (e
                == ConversionError::NonBinaryInput && bits@.len() <= 8 && !all_bits(bits@)),
        },
{
    if bits.len() > 8 {
        return Err(ConversionError::Overflow);
    }
    let mut val: u8 = 0;
    let mut i: usize = 0;
    while i < bits.len()
        invariant
            i <= bits@.len() <= 8,
            all_bits(bits@.take(i as int)),
            val == bits_val(bits@.take(i as int)),
            0 <= bits_val(bits@.take(i as int)) < pow2(i as nat),
        decreases bits@.len() - i,
    {
        let b = bits[i];
        if b != 0 && b != 1 {
            proof {
                assert(!all_bits(bits@)) by {
                    assert(bits@[i as int] != 0 && bits@[i as int] != 1);
                }
            }
            return Err(ConversionError::NonBinaryInput);
        }
        proof {
            assert(bits@.take(i as int + 1).drop_last() =~= bits@.take(i as int));
            assert(bits@.take(i as int + 1).last() == bits@[i as int]);
            lemma_bits_val_bound(bits@.take(i as int + 1));
            reveal_with_fuel(pow2, 9);
            assert(pow2(8) == 256);
        }
        val = val * 2 + b;
        i += 1;
    }
    proof {
        assert(bits@.take(bits@.len() as int) =~= bits@);
    }
    Ok(val)
}

/// The sum of the first four bytes, reduced modulo 256: the sensor's
/// parity byte must equal it.
pub open spec fn byte_sum(s: Seq<u8>) -> int
    decreases s.len(),
{
    if s.len() == 0 {
        0
    } else {
        byte_sum(s.drop_last()) + s.last()
    }
}

/// The checksum rule of a five-byte payload.
pub open spec fn checksum_ok(bytes: Seq<u8>) -> bool {
    bytes.len() == 5 && byte_sum(bytes.take(4)) % 256 == bytes[4]
}

/// The byte decoded from the `k`-th group of eight bits.
pub open spec fn chunk_val(data: Seq<u8>, k: int) -> int {
    bits_val(data.subrange(8 * k, 8 * k + 8))
}

pub open spec fn payload_bytes(data: Seq<u8>) -> Seq<u8> {
    Seq::new(5, |k: int| chunk_val(data, k) as u8)
}

/// The scaled humidity a 40-bit payload encodes: tenths of a percent.
pub open spec fn raw_humidity(bytes: Seq<u8>) -> int {
    bytes[0] * 256 + bytes[1]
}

/// The scaled temperature: tenths of a degree, the high bit of the
/// third byte marking a negative reading.
pub open spec fn raw_temperature(bytes: Seq<u8>) -> int {
    if bytes[2] >= 128 {
        -(bytes[3] as int)
    } else {
        bytes[2] * 256 + bytes[3]
    }
}

/// A decoded sensor reading, scaled by ten to stay in integers.
#[derive(Clone, Copy, PartialEq, Eq, Structural, Debug)]
pub struct Reading {
    temperature_deci: i16,
    humidity_deci: u16,
}

impl Reading {
    /// Temperature in tenths of a degree.
    pub fn temperature(&self) -> (t: i16)
        ensures
            t == self.temperature_spec(),
    {
        self.temperature_deci
    }

    /// Relative humidity in tenths of a percent.
    pub fn humidity(&self) -> (h: u16)
        ensures
            h == self.humidity_spec(),
    {
        self.humidity_deci
    }

    pub closed spec fn temperature_spec(self) -> i16 {
        self.temperature_deci
    }

    pub closed spec fn humidity_spec(self) -> u16 {
        self.humidity_deci
    }

    /// Decode a 40-bit sensor payload: five bytes, checked by the
    /// byte-sum parity rule, then range-checked against what the
    /// sensor can physically report.
    pub fn from_binary_slice(data: &Vec<u8>) -> (r: Result<Reading, ReadingError>)
        ensures
            match r {
                Ok(reading) => {
                    &&& data@.len() == 40
                    &&& all_bits(data@)
                    &&& checksum_ok(payload_bytes(data@))
                    &&& -410 <= reading.temperature_spec() <= 810
                    &&& reading.humidity_spec() <= 999
                    &&& reading.temperature_spec() == raw_temperature(payload_bytes(data@))
                    &&& reading.humidity_spec() == raw_humidity(payload_bytes(data@))
                },
                Err(ReadingError::WrongBitsCount) => data@.len() != 40,
                Err(ReadingError::MalformedData(e)) => data@.len() == 40 && !all_bits(data@) && e
                    == ConversionError::NonBinaryInput,
                Err(ReadingError::ParityBitMismatch) => data@.len() == 40 && all_bits(data@)
                    && !checksum_ok(payload_bytes(data@)),
                Err(ReadingError::OutOfSpecValue) => data@.len() == 40 && all_bits(data@)
                    && checksum_ok(payload_bytes(data@)) && (raw_temperature(payload_bytes(data@))
                    > 810 || raw_temperature(payload_bytes(data@)) < -410 || raw_humidity(
                    payload_bytes(data@),
                ) > 999),
            },
    {
        if data.len() != 40 {
            return Err(ReadingError::WrongBitsCount);
        }
        let mut bytes: Vec<u8> = Vec::new();
        let mut k: usize = 0;
        while k < 5
            invariant
                k <= 5,
                data@.len() == 40,
                bytes@.len() == k,
                forall|j: int| 0 <= j < k ==> all_bits(
                    #[trigger] data@.subrange(8 * j, 8 * j + 8),
                ),
                forall|j: int| 0 <= j < k ==> (#[trigger] bytes@[j]) == chunk_val(data@, j),
            decreases 5 - k,
        {
            let chunk = crate::domain::copy_range(data, 8 * k, 8 * k + 8);
            match convert(&chunk) {
                Ok(b) => {
                    proof {
                        assert(chunk@ == data@.subrange(8 * (k as int), 8 * (k as int) + 8));
                    }
                    bytes.push(b);
                },
                Err(_) => {
                    proof {
                        assert(!all_bits(data@)) by {
                            let j0 = choose|j0: int|
                                0 <= j0 < chunk@.len() && !((#[trigger] chunk@[j0]) == 0
                                    || chunk@[j0] == 1);
                            assert(data@[8 * (k as int) + j0] == chunk@[j0]);
                        }
                    }
                    return Err(ReadingError::MalformedData(ConversionError::NonBinaryInput));
                },
            }
            k += 1;
        }
        proof {
            assert(bytes@ =~= payload_bytes(data@));
            assert(all_bits(data@)) by {
                assert forall|i: int| 0 <= i < data@.len() implies (#[trigger] data@[i]) == 0
                    || data@[i] == 1 by {
                    let j = i / 8;
                    assert(0 <= j < 5);
                    assert(data@.subrange(8 * j, 8 * j + 8)[i - 8 * j] == data@[i]);
                    assert(all_bits(data@.subrange(8 * j, 8 * j + 8)));
                }
            }
        }
        let check_sum: u16 = bytes[0] as u16 + bytes[1] as u16 + bytes[2] as u16 + bytes[3] as u16;
        proof {
            assert(bytes@.take(4).drop_last() =~= bytes@.take(3));
            assert(bytes@.take(3).drop_last() =~= bytes@.take(2));
            assert(bytes@.take(2).drop_last() =~= bytes@.take(1));
            assert(bytes@.take(1).drop_last() =~= bytes@.take(0));
            assert(bytes@.take(4).last() == bytes@[3]);
            assert(bytes@.take(3).last() == bytes@[2]);
            assert(bytes@.take(2).last() == bytes@[1]);
            assert(bytes@.take(1).last() == bytes@[0]);
            assert(byte_sum(bytes@.take(0)) == 0);
            assert(byte_sum(bytes@.take(1)) == bytes@[0]);
            assert(byte_sum(bytes@.take(2)) == bytes@[0] + bytes@[1]);
            assert(byte_sum(bytes@.take(3)) == bytes@[0] + bytes@[1] + bytes@[2]);
            assert(byte_sum(bytes@.take(4)) == bytes@[0] + bytes@[1] + bytes@[2] + bytes@[3]);
        }
        if check_sum % 256 != bytes[4] as u16 {
            return Err(ReadingError::ParityBitMismatch);
        }
        let raw_hum: u16 = (bytes[0] as u16) * 256 + (bytes[1] as u16);
        let raw_temp: i16 = if bytes[2] >= 128 {
            -(bytes[3] as i16)
        } else {
            (bytes[2] as i16) * 256 + (bytes[3] as i16)
        };
        if raw_temp > 810 || raw_temp < -410 {
            return Err(ReadingError::OutOfSpecValue);
        }
        if raw_hum > 999 {
            return Err(ReadingError::OutOfSpecValue);
        }
        Ok(Reading { temperature_deci: raw_temp, humidity_deci: raw_hum })
    }
}

/// A reading is accepted when it stays within a tolerance of a
/// reference value, all in scaled integers.
pub fn accept_value(measured_deci: i32, reference_deci: i32, tolerance_deci: i32) -> (r: bool)
    ensures
        r == (-(tolerance_deci as int) < measured_deci - reference_deci < tolerance_deci),
{
    let diff: i64 = measured_deci as i64 - reference_deci as i64;
    -(tolerance_deci as i64) < diff && diff < tolerance_deci as i64
}

#[derive(Clone, Copy, PartialEq, Eq, Structural, Debug)]
pub enum EventType {
    RisingEdge,
    FallingEdge,
}

/// One observed edge on the sensor line, stamped in microseconds.
#[derive(Clone, Copy, PartialEq, Eq, Structural, Debug)]
pub struct Event {
    pub timestamp_us: u64,
    pub event_type: EventType,
}

impl Event {
    pub fn new(event_type: EventType, timestamp_us: u64) -> (e: Event)
        ensures
            e.event_type == event_type,
            e.timestamp_us == timestamp_us,
    {
        Event { timestamp_us, event_type }
    }
}

/// The bit each falling edge encodes: one when the line stayed up
/// longer than 35 microseconds.
pub open spec fn event_bits(events: Seq<Event>) -> Seq<u8>
    decreases events.len(),
{
    if events.len() <= 1 {
        Seq::<u8>::empty()
    } else {
        event_bits(events.drop_last()) + (if events.last().event_type
            == EventType::FallingEdge {
            seq![
                (if events.last().timestamp_us - events[events.len() - 2].timestamp_us > 35 {
                    1u8
                } else {
                    0u8
                }),
            ]
        } else {
            Seq::<u8>::empty()
        })
    }
}

/// Decode a run of edge events: slide a 40-bit window over the bits
/// the falling edges encode and return the first window that decodes
/// to a valid reading.
pub fn process_events(events: &Vec<Event>) -> (r: Option<Reading>)
    requires
        forall|i: int, j: int| 0 <= i < j < events@.len()
            ==> (#[trigger] events@[i]).timestamp_us <= (#[trigger] events@[j]).timestamp_us,
    ensures
        ({
            let bits = event_bits(events@);
            match r {
                Some(reading) => exists|j: int|
                    0 <= j <= bits.len() - 40 && Reading::from_bits_spec(
                        #[trigger] bits.subrange(j, j + 40),
                    ) == Some(reading),
                None => forall|j: int| 0 <= j <= bits.len() - 40
                    ==> Reading::from_bits_spec(#[trigger] bits.subrange(j, j + 40)) is None,
            }
        }),
{
    let bits = collect_bits(events);
    let ghost bs = event_bits(events@);
    if bits.len() < 40 {
        proof {
            assert forall|j: int| 0 <= j <= bs.len() - 40 implies Reading::from_bits_spec(
                #[trigger] bs.subrange(j, j + 40),
            ) is None by {}
        }
        return None;
    }
    let mut j: usize = 0;
    while j <= bits.len() - 40
        invariant
            bits@ == bs,
            bs == event_bits(events@),
            bits@.len() >= 40,
            j <= bits@.len() - 40 + 1,
            forall|k: int| 0 <= k < j ==> Reading::from_bits_spec(
                #[trigger] bs.subrange(k, k + 40),
            ) is None,
        decreases bits@.len() - j,
    {
        let window = crate::domain::copy_range(&bits, j, j + 40);
        proof {
            assert(window@ == bs.subrange(j as int, j as int + 40));
        }
        match Reading::from_binary_slice(&window) {
            Ok(reading) => {
                proof {
                    Reading::lemma_from_bits(window@, reading);
                }
                return Some(reading);
            },
            Err(_) => {
                proof {
                    Reading::lemma_from_bits_none(window@);
                }
            },
        }
        j += 1;
    }
    None
}

fn collect_bits(events: &Vec<Event>) -> (r: Vec<u8>)
    requires
        forall|i: int, j: int| 0 <= i < j < events@.len()
            ==> (#[trigger] events@[i]).timestamp_us <= (#[trigger] events@[j]).timestamp_us,
    ensures
        r@ == event_bits(events@),
{
    let mut r: Vec<u8> = Vec::new();
    if events.len() == 0 {
        proof {
            assert(r@ =~= event_bits(events@));
        }
        return r;
    }
    let mut i: usize = 1;
    proof {
        assert(events@.take(1).len() <= 1);
        assert(r@ =~= event_bits(events@.take(1)));
    }
    while i < events.len()
        invariant
            1 <= i <= events@.len(),
            forall|a: int, b: int| 0 <= a < b < events@.len()
                ==> (#[trigger] events@[a]).timestamp_us <= (#[trigger] events@[b]).timestamp_us,
            r@ == event_bits(events@.take(i as int)),
        decreases events@.len() - i,
    {
        proof {
            assert(events@.take(i as int + 1).drop_last() =~= events@.take(i as int));
            assert(events@.take(i as int + 1).last() == events@[i as int]);
            assert(events@.take(i as int + 1)[i - 1] == events@[i - 1]);
        }
        let is_falling = match events[i].event_type {
            EventType::FallingEdge => true,
            EventType::RisingEdge => false,
        };
        if is_falling {
            let gap = events[i].timestamp_us - events[i - 1].timestamp_us;
            let bit: u8 = if gap > 35 {
                1
            } else {
                0
            };
            r.push(bit);
            proof {
                assert(r@ =~= event_bits(events@.take(i as int + 1)));
            }
        } else {
            proof {
                assert(r@ =~= event_bits(events@.take(i as int + 1)));
            }
        }
        i += 1;
    }
    proof {
        assert(events@.take(events@.len() as int) =~= events@);
    }
    r
}

impl Reading {
    /// The reading a 40-bit window decodes to, if it is valid.
    pub closed spec fn from_bits_spec(bits: Seq<u8>) -> Option<Reading> {
        if bits.len() == 40 && all_bits(bits) && checksum_ok(payload_bytes(bits)) && -410
            <= raw_temperature(payload_bytes(bits)) <= 810 && raw_humidity(payload_bytes(bits))
            <= 999 {
            Some(
                Reading {
                    temperature_deci: raw_temperature(payload_bytes(bits)) as i16,
                    humidity_deci: raw_humidity(payload_bytes(bits)) as u16,
                },
            )
        } else {
            None
        }
    }

    proof fn lemma_from_bits(bits: Seq<u8>, reading: Reading)
        requires
            bits.len() == 40,
            all_bits(bits),
            checksum_ok(payload_bytes(bits)),
            -410 <= reading.temperature_spec() <= 810,
            reading.humidity_spec() <= 999,
            reading.temperature_spec() == raw_temperature(payload_bytes(bits)),
            reading.humidity_spec() == raw_humidity(payload_bytes(bits)),
        ensures
            Reading::from_bits_spec(bits) == Some(reading),
    {
    }

    proof fn lemma_from_bits_none(bits: Seq<u8>)
        requires
            bits.len() == 40,
            !(all_bits(bits) && checksum_ok(payload_bytes(bits)) && -410 <= raw_temperature(
                payload_bytes(bits),
            ) <= 810 && raw_humidity(payload_bytes(bits)) <= 999),
        ensures
            Reading::from_bits_spec(bits) is None,
    {
    }
}

} // verus!
