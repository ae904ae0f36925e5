//! GPU identifiers and the device ordinals that they stand for.

use crate::text;
use crate::text::Failure;
use vstd::prelude::*;
use vstd::string::StringExecFns;
use vstd::utf8;

verus! {

pub const CUDA_UUID_BYTES: usize = 16;

/// More devices than this are not supported.
pub const MAX_CUDA_DEVICES: usize = 64;

/// A device as the driver reports it.
#[derive(Clone, Debug, PartialEq, Eq)]
pub struct DriverCudaDevice {
    pub ordinal: u32,
    pub uuid: [u8; 16],
}

/// The value of a hexadecimal digit, of either case.
pub open spec fn nibble(byte: u8) -> Option<u8> {
    if 48 <= byte <= 57 {
        Some((byte - 48) as u8)
    } else if 97 <= byte <= 102 {
        Some((byte - 87) as u8)
    } else if 65 <= byte <= 70 {
        Some((byte - 55) as u8)
    } else {
        None
    }
}

/// Where the two digits of byte `k` of an identifier stand in its text.
pub open spec fn pair_place(k: int) -> int {
    if k < 4 {
        4 + 2 * k
    } else if k < 6 {
        5 + 2 * k
    } else if k < 8 {
        6 + 2 * k
    } else if k < 10 {
        7 + 2 * k
    } else {
        8 + 2 * k
    }
}

/// Whether byte `k` of an identifier is written by two digits.
pub open spec fn pair_reads(bytes: Seq<u8>, k: int) -> bool {
    nibble(bytes[pair_place(k)]) is Some && nibble(bytes[pair_place(k) + 1]) is Some
}

/// Byte `k` of an identifier.
pub open spec fn pair_value(bytes: Seq<u8>, k: int) -> int {
    nibble(bytes[pair_place(k)])->0 * 16 + nibble(bytes[pair_place(k) + 1])->0
}

/// Whether bytes write a GPU identifier: the prefix `GPU-` in either case, then digits in
/// groups of 8, 4, 4, 4 and 12 with dashes between them.
pub open spec fn canonical(bytes: Seq<u8>) -> bool {
    &&& bytes.len() == 40
    &&& (bytes[0] == 71 || bytes[0] == 103)
    &&& (bytes[1] == 80 || bytes[1] == 112)
    &&& (bytes[2] == 85 || bytes[2] == 117)
    &&& bytes[3] == 45
    &&& bytes[12] == 45
    &&& bytes[17] == 45
    &&& bytes[22] == 45
    &&& bytes[27] == 45
    &&& forall|k: int| 0 <= k < 16 ==> #[trigger] pair_reads(bytes, k)
}

/// Whether `uuid` is the identifier that bytes write.
pub open spec fn writes(bytes: Seq<u8>, uuid: Seq<u8>) -> bool {
    &&& uuid.len() == 16
    &&& forall|k: int| 0 <= k < 16 ==> (#[trigger] uuid[k]) as int == pair_value(bytes, k)
}

/// The digit value of `byte`.
pub fn hex_nibble(byte: u8) -> (value: Option<u8>)
    ensures
        value == nibble(byte),
{
    if 48 <= byte && byte <= 57 {
        Some(byte - 48)
    } else if 97 <= byte && byte <= 102 {
        Some(byte - 87)
    } else if 65 <= byte && byte <= 70 {
        Some(byte - 55)
    } else {
        None
    }
}

/// The identifier that `input` writes.
pub fn parse_gpu_uuid(input: &str) -> (result: Result<[u8; 16], Failure>)
    ensures
        match result {
            Ok(uuid) => canonical(utf8::encode_utf8(input@)) && writes(
                utf8::encode_utf8(input@),
                uuid@,
            ),
            Err(failure) => !canonical(utf8::encode_utf8(input@)) && text::plain(
                failure,
                "cuda_unavailable: configured gpu_uuid must be a canonical GPU UUID"@,
            ),
        },
{
    let bytes = input.as_bytes();
    if bytes.len() != 40 || (bytes[0] != 71 && bytes[0] != 103) || (bytes[1] != 80 && bytes[1]
        != 112) || (bytes[2] != 85 && bytes[2] != 117) || bytes[3] != 45 || bytes[12] != 45
        || bytes[17] != 45 || bytes[22] != 45 || bytes[27] != 45 {
        return Err(
            Failure::new("cuda_unavailable: configured gpu_uuid must be a canonical GPU UUID"),
        );
    }
    let mut output: [u8; 16] = [0u8;16];
    let mut k: usize = 0;
    while k < 16
        invariant
            k <= 16,
            bytes@ == utf8::encode_utf8(input@),
            bytes.len() == 40,
            output@.len() == 16,
            forall|j: int| 0 <= j < k ==> #[trigger] pair_reads(bytes@, j),
            forall|j: int| 0 <= j < k ==> (#[trigger] output@[j]) as int == pair_value(bytes@, j),
        decreases 16 - k,
    {
        let place: usize = if k < 4 {
            4 + 2 * k
        } else if k < 6 {
            5 + 2 * k
        } else if k < 8 {
            6 + 2 * k
        } else if k < 10 {
            7 + 2 * k
        } else {
            8 + 2 * k
        };
        assert(place == pair_place(k as int));
        let pair = (hex_nibble(bytes[place]), hex_nibble(bytes[place + 1]));
        match pair {
            (Some(high), Some(low)) => {
                output[k] = high * 16 + low;
            },
            _ => {
                assert(!pair_reads(bytes@, k as int));
                return Err(
                    Failure::new(
                        "cuda_unavailable: configured gpu_uuid must be a canonical GPU UUID",
                    ),
                );
            },
        }
        k += 1;
    }
    Ok(output)
}

/// What the failure of a driver call says.
pub open spec fn call_failed(name: Seq<char>, status: int) -> Seq<char> {
    "cuda_unavailable: "@ + name + " failed with CUDA status "@ + text::signed_decimal(status)
}

/// Checks the status of a driver call; zero is success.
pub fn cuda_call(name: &str, status: i32) -> (result: Result<(), Failure>)
    ensures
        match result {
            Ok(_) => status == 0,
            Err(failure) => status != 0 && text::plain(failure, call_failed(name@, status as int)),
        },
{
    if status == 0 {
        return Ok(());
    }
    let mut message = "cuda_unavailable: ".to_owned();
    message.append(name);
    message.append(" failed with CUDA status ");
    message.append(text::signed_text(status as i64).as_str());
    Err(Failure::of(message))
}

/// How many devices to enumerate when the driver reports `count`.
pub fn device_count(count: i32) -> (result: Result<usize, Failure>)
    ensures
        match result {
            Ok(devices) => 0 <= count <= MAX_CUDA_DEVICES && devices == count,
            Err(failure) => if count < 0 {
                text::plain(
                    failure,
                    "cuda_unavailable: CUDA driver returned a negative device count"@,
                )
            } else {
                count > MAX_CUDA_DEVICES && text::plain(
                    failure,
                    "cuda_unavailable: CUDA reported "@ + text::decimal(count as nat)
                        + " devices, maximum supported is 64"@,
                )
            },
        },
{
    if count < 0 {
        return Err(
            Failure::new("cuda_unavailable: CUDA driver returned a negative device count"),
        );
    }
    if count > 64 {
        let mut message = "cuda_unavailable: CUDA reported ".to_owned();
        message.append(text::decimal_text(count as u64).as_str());
        message.append(" devices, maximum supported is 64");
        return Err(Failure::of(message));
    }
    Ok(count as usize)
}

/// What the driver said of one device: the statuses of the two calls about it, and its
/// identifier when both succeeded.
#[derive(Clone, Debug)]
pub struct DeviceProbe {
    pub device_status: i32,
    pub uuid_status: i32,
    pub uuid: [u8; 16],
}

/// Whether a device was read: both calls succeeded.
pub open spec fn probe_ok(probe: DeviceProbe) -> bool {
    probe.device_status == 0 && probe.uuid_status == 0
}

/// What the failure to read a device says.
pub open spec fn probe_failure(probe: DeviceProbe) -> Seq<char> {
    if probe.device_status != 0 {
        call_failed("cuDeviceGet"@, probe.device_status as int)
    } else {
        call_failed("cuDeviceGetUuid_v2"@, probe.uuid_status as int)
    }
}

/// Whether the first `n` devices may all be read.
pub open spec fn all_readable<F: Fn(usize) -> DeviceProbe>(probe: F, n: int) -> bool {
    forall|i: usize| i < n ==> #[trigger] may_be_read(probe, i)
}

/// Whether a device may be read.
pub open spec fn may_be_read<F: Fn(usize) -> DeviceProbe>(probe: F, i: usize) -> bool {
    exists|probed: DeviceProbe| #[trigger] call_ensures(probe, (i,), probed) && probe_ok(probed)
}

/// Lists the devices of a driver that reports `count` of them, in order of their ordinals.
/// The first device that cannot be read fails the whole listing.
pub fn enumerate_driver<F: Fn(usize) -> DeviceProbe>(
    init_status: i32,
    count_status: i32,
    count: i32,
    probe: F,
) -> (result: Result<Vec<DriverCudaDevice>, Failure>)
    requires
        init_status == 0 && count_status == 0 && count <= MAX_CUDA_DEVICES ==> forall|i: usize|
            i < count && all_readable(probe, i as int) ==> #[trigger] call_requires(probe, (i,)),
    ensures
        match result {
            Ok(devices) => {
                &&& init_status == 0 && count_status == 0 && 0 <= count <= MAX_CUDA_DEVICES
                &&& devices.len() == count
                &&& forall|i: int|
                    0 <= i < count ==> {
                        &&& (#[trigger] devices[i]).ordinal == i
                        &&& exists|probed: DeviceProbe|
                            {
                                &&& #[trigger] call_ensures(probe, (i as usize,), probed)
                                &&& probe_ok(probed)
                                &&& devices[i].uuid == probed.uuid
                            }
                    }
            },
            Err(failure) => if init_status != 0 {
                text::plain(failure, call_failed("cuInit"@, init_status as int))
            } else if count_status != 0 {
                text::plain(failure, call_failed("cuDeviceGetCount"@, count_status as int))
            } else if count < 0 {
                text::plain(
                    failure,
                    "cuda_unavailable: CUDA driver returned a negative device count"@,
                )
            } else if count > MAX_CUDA_DEVICES {
                text::plain(
                    failure,
                    "cuda_unavailable: CUDA reported "@ + text::decimal(count as nat)
                        + " devices, maximum supported is 64"@,
                )
            } else {
                exists|i: usize, probed: DeviceProbe|
                    {
                        &&& i < count
                        &&& all_readable(probe, i as int)
                        &&& #[trigger] call_ensures(probe, (i,), probed)
                        &&& !probe_ok(probed)
                        &&& text::plain(failure, probe_failure(probed))
                    }
            },
        },
{
    match cuda_call("cuInit", init_status) {
        Err(failure) => return Err(failure),
        Ok(_) => {},
    }
    match cuda_call("cuDeviceGetCount", count_status) {
        Err(failure) => return Err(failure),
        Ok(_) => {},
    }
    let total: usize = match device_count(count) {
        Err(failure) => return Err(failure),
        Ok(total) => total,
    };
    let mut devices: Vec<DriverCudaDevice> = Vec::new();
    let mut i: usize = 0;
    while i < total
        invariant
            init_status == 0,
            count_status == 0,
            i <= total == count <= MAX_CUDA_DEVICES,
            forall|i: usize|
                i < count && all_readable(probe, i as int) ==> #[trigger] call_requires(
                    probe,
                    (i,),
                ),
            all_readable(probe, i as int),
            devices.len() == i,
            forall|k: int|
                0 <= k < i ==> {
                    &&& (#[trigger] devices@[k]).ordinal == k
                    &&& exists|probed: DeviceProbe|
                        {
                            &&& #[trigger] call_ensures(probe, (k as usize,), probed)
                            &&& probe_ok(probed)
                            &&& devices@[k].uuid == probed.uuid
                        }
                },
        decreases total - i,
    {
        let probed = probe(i);
        match cuda_call("cuDeviceGet", probed.device_status) {
            Err(failure) => return Err(failure),
            Ok(_) => {},
        }
        match cuda_call("cuDeviceGetUuid_v2", probed.uuid_status) {
            Err(failure) => return Err(failure),
            Ok(_) => {},
        }
        let ghost before = devices@;
        devices.push(DriverCudaDevice { ordinal: i as u32, uuid: probed.uuid });
        proof {
            assert(call_ensures(probe, (i as int as usize,), probed));
            assert(may_be_read(probe, i));
            assert forall|k: int| 0 <= k < i + 1 implies {
                &&& (#[trigger] devices@[k]).ordinal == k
                &&& exists|probed: DeviceProbe|
                    {
                        &&& #[trigger] call_ensures(probe, (k as usize,), probed)
                        &&& probe_ok(probed)
                        &&& devices@[k].uuid == probed.uuid
                    }
            } by {
                if k < i {
                    assert(devices@[k] == before[k]);
                }
            }
        }
        i += 1;
    }
    Ok(devices)
}

/// Whether an identifier stands for an ordinal: that of the first device that has it, or
/// none when no device does.
pub open spec fn resolves(
    wanted: Seq<u8>,
    devices: Seq<DriverCudaDevice>,
    result: Result<u32, Failure>,
) -> bool {
    match result {
        Ok(ordinal) => exists|i: int|
            {
                &&& 0 <= i < devices.len()
                &&& (#[trigger] devices[i]).uuid@ == wanted
                &&& devices[i].ordinal == ordinal
                &&& forall|j: int| 0 <= j < i ==> (#[trigger] devices[j]).uuid@ != wanted
            },
        Err(failure) => {
            &&& forall|j: int| 0 <= j < devices.len() ==> (#[trigger] devices[j]).uuid@ != wanted
            &&& text::plain(
                failure,
                "cuda_unavailable: configured gpu_uuid is not visible to CUDA"@,
            )
        },
    }
}

/// The ordinal of the first device with the identifier `wanted`.
pub fn resolve_uuid_from_devices(wanted: [u8; 16], devices: &[DriverCudaDevice]) -> (result: Result<
    u32,
    Failure,
>)
    ensures
        resolves(wanted@, devices@, result),
{
    let mut i: usize = 0;
    while i < devices.len()
        invariant
            i <= devices.len(),
            forall|j: int| 0 <= j < i ==> (#[trigger] devices@[j]).uuid@ != wanted@,
        decreases devices.len() - i,
    {
        if text::same_bytes(&devices[i].uuid, &wanted) {
            return Ok(devices[i].ordinal);
        }
        i += 1;
    }
    Err(Failure::new("cuda_unavailable: configured gpu_uuid is not visible to CUDA"))
}

/// Whether `result` is the ordinal for a configured identifier, where `enumerate` lists the
/// devices. A malformed identifier is refused whatever the devices are.
pub open spec fn uuid_resolved<F: FnOnce() -> Result<Vec<DriverCudaDevice>, Failure>>(
    wanted: Seq<char>,
    enumerate: F,
    result: Result<u32, Failure>,
) -> bool {
    let bytes = utf8::encode_utf8(wanted);
    if !canonical(bytes) {
        result is Err && text::plain(
            result->Err_0,
            "cuda_unavailable: configured gpu_uuid must be a canonical GPU UUID"@,
        )
    } else {
        exists|listed: Result<Vec<DriverCudaDevice>, Failure>, uuid: Seq<u8>|
            {
                &&& #[trigger] call_ensures(enumerate, (), listed)
                &&& #[trigger] writes(bytes, uuid)
                &&& match listed {
                    Ok(devices) => resolves(uuid, devices@, result),
                    Err(failure) => result == Err::<u32, Failure>(failure),
                }
            }
    }
}

/// The ordinal of the device that `wanted` names. The devices are only listed when
/// `wanted` is well formed.
pub fn resolve_cuda_uuid_with<F: FnOnce() -> Result<Vec<DriverCudaDevice>, Failure>>(
    wanted: &str,
    enumerate: F,
) -> (result: Result<u32, Failure>)
    requires
        canonical(utf8::encode_utf8(wanted@)) ==> call_requires(enumerate, ()),
    ensures
        uuid_resolved(wanted@, enumerate, result),
{
    match parse_gpu_uuid(wanted) {
        Err(failure) => Err(failure),
        Ok(uuid) => match enumerate() {
            Err(failure) => {
                let result = Err(failure);
                assert(writes(utf8::encode_utf8(wanted@), uuid@));
                result
            },
            Ok(devices) => {
                assert(writes(utf8::encode_utf8(wanted@), uuid@));
                resolve_uuid_from_devices(uuid, devices.as_slice())
            },
        },
    }
}

} // verus!
