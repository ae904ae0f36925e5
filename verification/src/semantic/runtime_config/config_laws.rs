//! What holds of the configuration of inference, and of the devices that it names.

use crate::digest;
use crate::path_laws;
use crate::paths;
use crate::semantic::runtime_config;
use crate::semantic::runtime_config::cuda_identity;
use crate::semantic::runtime_config::cuda_identity::DriverCudaDevice;
use crate::semantic::runtime_config::EnvironmentDefaults;
use crate::semantic::runtime_config::InferenceConfig;
use crate::semantic::runtime_config::InferenceProvider;
use crate::system::routing_laws;
use crate::text;
use crate::text::Failure;
use crate::text_laws;
use crate::unicode;
use vstd::prelude::*;
use vstd::utf8;

verus! {

/// What is set in the configuration stays; where a path is not, that of the environment counts.
/// Nothing else is taken from the environment.
pub proof fn law_environment_fills_gaps_alone(
    config: InferenceConfig,
    environment: EnvironmentDefaults,
    result: InferenceConfig,
)
    requires
        runtime_config::loaded(Ok(Some(config)), environment, Ok(result)),
    ensures
        result.model_dir == match config.model_dir {
            Some(dir) => Some(dir),
            None => environment.model_dir,
        },
        result.runtime_library == match config.runtime_library {
            Some(library) => Some(library),
            None => environment.runtime_library,
        },
        result.cuda_preload_library == match config.cuda_preload_library {
            Some(library) => Some(library),
            None => environment.cuda_preload_library,
        },
        result.rerank_model_dir == match config.rerank_model_dir {
            Some(dir) => Some(dir),
            None => environment.rerank_model_dir,
        },
        result.provider == config.provider,
        result.gpu_uuid == config.gpu_uuid,
        result.rerank_gpu_uuid == config.rerank_gpu_uuid,
        result.arena_bytes == config.arena_bytes,
{
}

/// Without a file inference runs on the processor, with ten gibibytes, and knows only the paths of
/// the environment.
pub proof fn law_missing_configurations_are_plain(
    environment: EnvironmentDefaults,
    result: Result<InferenceConfig, Failure>,
)
    requires
        runtime_config::loaded(Ok(None), environment, result),
    ensures
        result is Ok,
        result->Ok_0.provider == InferenceProvider::Cpu,
        result->Ok_0.arena_bytes == 10737418240,
        result->Ok_0.gpu_uuid is None,
        result->Ok_0.rerank_gpu_uuid is None,
        result->Ok_0.model_dir == environment.model_dir,
        result->Ok_0.runtime_library == environment.runtime_library,
        result->Ok_0.cuda_preload_library == environment.cuda_preload_library,
        result->Ok_0.rerank_model_dir == environment.rerank_model_dir,
{
}

/// A configuration is good just where it has memory, CUDA has a device, and a device of the
/// reranker has CUDA and a reranker.
pub proof fn law_good_configurations_are_taken(
    config: InferenceConfig,
    environment: EnvironmentDefaults,
    result: Result<InferenceConfig, Failure>,
)
    requires
        runtime_config::loaded(Ok(Some(config)), environment, result),
    ensures
        result is Ok <==> {
            &&& config.arena_bytes > 0
            &&& config.provider == InferenceProvider::Cuda ==> config.gpu_uuid is Some
                && config.gpu_uuid->0@.len() > 0
            &&& config.rerank_gpu_uuid is Some ==> config.provider == InferenceProvider::Cuda && (
            config.rerank_model_dir is Some || environment.rerank_model_dir is Some)
        },
{
}

/// A process sees the device of the embedder and, where it is another one, that of the reranker;
/// on the processor it sees none.
pub proof fn law_processes_see_their_devices(config: InferenceConfig)
    requires
        config.gpu_uuid matches Some(uuid) ==> text_laws::is_free_of(uuid@, ','),
        config.rerank_gpu_uuid matches Some(uuid) ==> text_laws::is_free_of(uuid@, ','),
    ensures
        config.provider == InferenceProvider::Cpu ==> config.visible_devices() is None,
        config.provider == InferenceProvider::Cuda && config.gpu_uuid is Some
            ==> config.visible_devices() is Some && text::parts(
            config.visible_devices()->0,
            ',',
        ) == if config.rerank_gpu_uuid is Some && config.rerank_gpu_uuid->0@
            != config.gpu_uuid->0@ {
            seq![config.gpu_uuid->0@, config.rerank_gpu_uuid->0@]
        } else {
            seq![config.gpu_uuid->0@]
        },
        config.rerank_uuid() == if config.rerank_gpu_uuid is Some {
            config.rerank_gpu_uuid
        } else {
            config.gpu_uuid
        },
{
    if config.gpu_uuid is Some {
        let first = config.gpu_uuid->0@;
        text_laws::law_texts_without_separator_are_one_part(first, ',');
        if config.rerank_gpu_uuid is Some {
            let second = config.rerank_gpu_uuid->0@;
            text_laws::law_texts_without_separator_are_one_part(second, ',');
            text_laws::law_parts_follow_each_other(first, second, ',');
            reveal_strlit(",");
            assert(","@ =~= seq![',']);
            assert(seq![first] + seq![second] =~= seq![first, second]);
        }
    }
}

/// The configuration is where it is set to be, if that is an absolute path; else in
/// `.config/trufflepig/inference.toml` of the home directory.
pub proof fn law_configurations_have_a_place(
    overridden: Option<Vec<u8>>,
    home: Option<Vec<u8>>,
    result: Result<Vec<u8>, Failure>,
)
    requires
        runtime_config::config_path(overridden, home, result),
    ensures
        overridden matches Some(path) ==> (result is Ok <==> path@.len() > 0 && path@[0] == 47) && (
        result is Ok ==> result->Ok_0@ == path@),
        overridden is None ==> (result is Ok <==> home is Some),
        overridden is None && home is Some && routing_laws::goes_on(home->0@) ==> result->Ok_0@
            == routing_laws::below_by(home->0@, ".config/trufflepig"@, "inference.toml"@),
{
    if overridden is None && home is Some && routing_laws::goes_on(home->0@) {
        reveal_strlit(".config/trufflepig");
        reveal_strlit("inference.toml");
        routing_laws::lemma_plain_name(".config/trufflepig"@);
        routing_laws::lemma_plain_name("inference.toml"@);
        let first = utf8::encode_utf8(".config/trufflepig"@);
        let inner = paths::joined(home->0@, first);
        assert(inner =~= path_laws::on_to(home->0@, first));
        assert(inner.last() == first.last());
    }
}

/// A line of the listing that has an identifier and a number, with a comma between them and
/// whitespace around them, lists that device.
pub proof fn law_listed_devices_are_read(
    a: Seq<char>,
    uuid: Seq<char>,
    b: Seq<char>,
    c: Seq<char>,
    ordinal: nat,
    d: Seq<char>,
)
    requires
        text_laws::is_space(a),
        text_laws::is_space(b),
        text_laws::is_space(c),
        text_laws::is_space(d),
        text_laws::is_word(uuid),
        text_laws::is_free_of(uuid, ','),
        ordinal <= u32::MAX,
    ensures
        runtime_config::device_row(
            a + uuid + b + seq![','] + (c + text::decimal(ordinal) + d),
        ) == Some((uuid, ordinal)),
{
    let left = a + uuid + b;
    let number = text::decimal(ordinal);
    let right = c + number + d;
    text_laws::lemma_decimal_value(ordinal);
    text_laws::law_unsigned_numbers_are_read_back(ordinal, u32::MAX as nat);
    assert(!unicode::whitespace(','));
    lemma_space_has_no_comma(a);
    lemma_space_has_no_comma(b);
    lemma_space_has_no_comma(c);
    lemma_space_has_no_comma(d);
    assert(text_laws::is_free_of(left, ',')) by {
        assert forall|i: int| 0 <= i < left.len() implies #[trigger] left[i] != ',' by {
            if i < a.len() {
                assert(left[i] == a[i]);
            } else if i < a.len() + uuid.len() {
                assert(left[i] == uuid[i - a.len()]);
            } else {
                assert(left[i] == b[i - a.len() - uuid.len()]);
            }
        }
    }
    assert(text_laws::is_free_of(right, ',')) by {
        assert forall|i: int| 0 <= i < right.len() implies #[trigger] right[i] != ',' by {
            if i < c.len() {
                assert(right[i] == c[i]);
            } else if i < c.len() + number.len() {
                assert(right[i] == number[i - c.len()]);
                assert('0' <= number[i - c.len()] <= '9');
            } else {
                assert(right[i] == d[i - c.len() - number.len()]);
            }
        }
    }
    text_laws::law_parts_follow_each_other(left, right, ',');
    text_laws::law_texts_without_separator_are_one_part(left, ',');
    text_laws::law_texts_without_separator_are_one_part(right, ',');
    let fields = text::parts(left + seq![','] + right, ',');
    assert(fields =~= seq![left, right]);
    assert(uuid.last() == uuid[uuid.len() - 1]);
    text_laws::law_trimming_leaves_the_text(a, uuid, b);
    assert('0' <= number[0] <= '9');
    assert('0' <= number[number.len() - 1] <= '9');
    text_laws::law_trimming_leaves_the_text(c, number, d);
}

proof fn lemma_space_has_no_comma(s: Seq<char>)
    requires
        text_laws::is_space(s),
    ensures
        text_laws::is_free_of(s, ','),
{
    assert forall|i: int| 0 <= i < s.len() implies #[trigger] s[i] != ',' by {
        assert(unicode::whitespace(s[i]));
    }
}

/// A byte of ASCII in lowercase.
pub open spec fn lowered(byte: u8) -> u8 {
    if 65 <= byte <= 90 {
        (byte + 32) as u8
    } else {
        byte
    }
}

/// An identifier as the driver writes it, behind `gpu-`: two hexadecimal digits for each of its
/// bytes, in groups of four, two, two, two and six bytes, with dashes between them.
pub open spec fn is_written(bytes: Seq<u8>, uuid: Seq<u8>) -> bool {
    let digits = digest::hex(uuid);
    &&& uuid.len() == 16
    &&& bytes.len() == 40
    &&& lowered(bytes[0]) == 103 && lowered(bytes[1]) == 112 && lowered(bytes[2]) == 117
    &&& bytes[3] == 45 && bytes[12] == 45 && bytes[17] == 45 && bytes[22] == 45 && bytes[27] == 45
    &&& forall|i: int| 0 <= i < 8 ==> lowered(#[trigger] bytes[4 + i]) == digits[i] as u8
    &&& forall|i: int| 8 <= i < 12 ==> lowered(#[trigger] bytes[5 + i]) == digits[i] as u8
    &&& forall|i: int| 12 <= i < 16 ==> lowered(#[trigger] bytes[6 + i]) == digits[i] as u8
    &&& forall|i: int| 16 <= i < 20 ==> lowered(#[trigger] bytes[7 + i]) == digits[i] as u8
    &&& forall|i: int| 20 <= i < 32 ==> lowered(#[trigger] bytes[8 + i]) == digits[i] as u8
}

proof fn lemma_nibble(byte: u8, n: int)
    requires
        0 <= n < 16,
        lowered(byte) == digest::hex_digit(n) as u8,
    ensures
        cuda_identity::nibble(byte) == Some(n as u8),
{
}

/// An identifier of a device is read back from how it is written, in either case.
pub proof fn law_device_identifiers_are_read_back(bytes: Seq<u8>, uuid: Seq<u8>)
    requires
        is_written(bytes, uuid),
    ensures
        cuda_identity::canonical(bytes),
        cuda_identity::writes(bytes, uuid),
{
    assert forall|k: int| 0 <= k < 16 implies #[trigger] cuda_identity::pair_reads(bytes, k)
        && cuda_identity::pair_value(bytes, k) == uuid[k] as int by {
        lemma_pair(bytes, uuid, k);
    }
    assert forall|k: int| 0 <= k < 16 implies (#[trigger] uuid[k]) as int
        == cuda_identity::pair_value(bytes, k) by {
        assert(cuda_identity::pair_reads(bytes, k));
    }
}

proof fn lemma_pair(bytes: Seq<u8>, uuid: Seq<u8>, k: int)
    requires
        is_written(bytes, uuid),
        0 <= k < 16,
    ensures
        cuda_identity::pair_reads(bytes, k),
        cuda_identity::pair_value(bytes, k) == uuid[k] as int,
{
    let digits = digest::hex(uuid);
    let at = cuda_identity::pair_place(k);
    assert((2 * k) / 2 == k && (2 * k) % 2 == 0);
    assert((2 * k + 1) / 2 == k && (2 * k + 1) % 2 == 1);
    assert(digits[2 * k] == digest::hex_digit(uuid[k] as int / 16));
    assert(digits[2 * k + 1] == digest::hex_digit(uuid[k] as int % 16));
    if k < 4 {
        assert(lowered(bytes[4 + 2 * k]) == digits[2 * k] as u8);
        assert(lowered(bytes[4 + (2 * k + 1)]) == digits[2 * k + 1] as u8);
    } else if k < 6 {
        assert(lowered(bytes[5 + 2 * k]) == digits[2 * k] as u8);
        assert(lowered(bytes[5 + (2 * k + 1)]) == digits[2 * k + 1] as u8);
    } else if k < 8 {
        assert(lowered(bytes[6 + 2 * k]) == digits[2 * k] as u8);
        assert(lowered(bytes[6 + (2 * k + 1)]) == digits[2 * k + 1] as u8);
    } else if k < 10 {
        assert(lowered(bytes[7 + 2 * k]) == digits[2 * k] as u8);
        assert(lowered(bytes[7 + (2 * k + 1)]) == digits[2 * k + 1] as u8);
    } else {
        assert(lowered(bytes[8 + 2 * k]) == digits[2 * k] as u8);
        assert(lowered(bytes[8 + (2 * k + 1)]) == digits[2 * k + 1] as u8);
    }
    lemma_nibble(bytes[at], uuid[k] as int / 16);
    lemma_nibble(bytes[at + 1], uuid[k] as int % 16);
}

proof fn lemma_nibble_back(byte: u8, n: u8)
    requires
        cuda_identity::nibble(byte) == Some(n),
    ensures
        n < 16,
        lowered(byte) == digest::hex_digit(n as int) as u8,
{
}

proof fn lemma_pair_back(bytes: Seq<u8>, uuid: Seq<u8>, k: int)
    requires
        cuda_identity::canonical(bytes),
        cuda_identity::writes(bytes, uuid),
        0 <= k < 16,
    ensures
        lowered(bytes[cuda_identity::pair_place(k)]) == digest::hex(uuid)[2 * k] as u8,
        lowered(bytes[cuda_identity::pair_place(k) + 1]) == digest::hex(uuid)[2 * k + 1] as u8,
{
    let at = cuda_identity::pair_place(k);
    assert(cuda_identity::pair_reads(bytes, k));
    let high = cuda_identity::nibble(bytes[at])->0;
    let low = cuda_identity::nibble(bytes[at + 1])->0;
    lemma_nibble_back(bytes[at], high);
    lemma_nibble_back(bytes[at + 1], low);
    assert(uuid[k] as int == high * 16 + low);
    assert((2 * k) / 2 == k && (2 * k) % 2 == 0);
    assert((2 * k + 1) / 2 == k && (2 * k + 1) % 2 == 1);
}

proof fn lemma_digit_back(bytes: Seq<u8>, uuid: Seq<u8>, i: int)
    requires
        cuda_identity::canonical(bytes),
        cuda_identity::writes(bytes, uuid),
        0 <= i < 32,
    ensures
        i < 8 ==> lowered(bytes[4 + i]) == digest::hex(uuid)[i] as u8,
        8 <= i < 12 ==> lowered(bytes[5 + i]) == digest::hex(uuid)[i] as u8,
        12 <= i < 16 ==> lowered(bytes[6 + i]) == digest::hex(uuid)[i] as u8,
        16 <= i < 20 ==> lowered(bytes[7 + i]) == digest::hex(uuid)[i] as u8,
        20 <= i ==> lowered(bytes[8 + i]) == digest::hex(uuid)[i] as u8,
{
    let k = i / 2;
    lemma_pair_back(bytes, uuid, k);
    assert(i == 2 * k || i == 2 * k + 1);
}

/// Nothing is read but what an identifier is written as.
pub proof fn law_only_device_identifiers_are_read(bytes: Seq<u8>, uuid: Seq<u8>)
    requires
        cuda_identity::canonical(bytes),
        cuda_identity::writes(bytes, uuid),
    ensures
        is_written(bytes, uuid),
{
    let digits = digest::hex(uuid);
    assert forall|i: int| 0 <= i < 8 implies lowered(#[trigger] bytes[4 + i])
        == digits[i] as u8 by {
        lemma_digit_back(bytes, uuid, i);
    }
    assert forall|i: int| 8 <= i < 12 implies lowered(#[trigger] bytes[5 + i])
        == digits[i] as u8 by {
        lemma_digit_back(bytes, uuid, i);
    }
    assert forall|i: int| 12 <= i < 16 implies lowered(#[trigger] bytes[6 + i])
        == digits[i] as u8 by {
        lemma_digit_back(bytes, uuid, i);
    }
    assert forall|i: int| 16 <= i < 20 implies lowered(#[trigger] bytes[7 + i])
        == digits[i] as u8 by {
        lemma_digit_back(bytes, uuid, i);
    }
    assert forall|i: int| 20 <= i < 32 implies lowered(#[trigger] bytes[8 + i])
        == digits[i] as u8 by {
        lemma_digit_back(bytes, uuid, i);
    }
}

/// A device that is listed is found by its identifier, as long as no other one has that.
pub proof fn law_listed_devices_are_found(
    wanted: Seq<u8>,
    devices: Seq<DriverCudaDevice>,
    result: Result<u32, Failure>,
    i: int,
)
    requires
        cuda_identity::resolves(wanted, devices, result),
        0 <= i < devices.len(),
        devices[i].uuid@ == wanted,
        forall|j: int|
            0 <= j < devices.len() && (#[trigger] devices[j]).uuid@ == wanted
                ==> devices[j].ordinal == devices[i].ordinal,
    ensures
        result == Ok::<u32, Failure>(devices[i].ordinal),
{
}

/// A provider that is not on a device needs none; one that is has the device whose identifier is
/// written in its configuration, out of those that are listed.
pub proof fn law_configured_devices_are_used<
    F: FnOnce() -> Result<Vec<DriverCudaDevice>, Failure>,
>(
    provider: InferenceProvider,
    uuid: Option<String>,
    list: F,
    ordinal: Option<u32>,
) -> (listed: Seq<DriverCudaDevice>)
    requires
        runtime_config::device_resolved(provider, uuid, list, Ok(ordinal)),
    ensures
        ordinal is Some <==> provider == InferenceProvider::Cuda,
        ordinal is Some ==> {
            &&& uuid is Some
            &&& exists|devices: Vec<DriverCudaDevice>| #[trigger]
                call_ensures(list, (), Ok::<Vec<DriverCudaDevice>, Failure>(devices))
                    && devices@ == listed
            &&& exists|i: int|
                {
                    &&& 0 <= i < listed.len()
                    &&& (#[trigger] listed[i]).ordinal == ordinal->0
                    &&& is_written(utf8::encode_utf8(uuid->0@), listed[i].uuid@)
                }
        },
{
    if provider == InferenceProvider::Cuda {
        let bytes = utf8::encode_utf8(uuid->0@);
        let result = Ok::<u32, Failure>(ordinal->0);
        let (given, wanted) = choose|given: Result<Vec<DriverCudaDevice>, Failure>, wanted: Seq<u8>|
            {
                &&& #[trigger] call_ensures(list, (), given)
                &&& #[trigger] cuda_identity::writes(bytes, wanted)
                &&& match given {
                    Ok(devices) => cuda_identity::resolves(wanted, devices@, result),
                    Err(failure) => result == Err::<u32, Failure>(failure),
                }
            };
        law_only_device_identifiers_are_read(bytes, wanted);
        given->Ok_0@
    } else {
        Seq::empty()
    }
}

} // verus!
