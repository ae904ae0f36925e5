//! Execution providers, and the pinned files that a model is loaded from.

use crate::digest;
use crate::digest::Sha256Stream;
use crate::semantic::inference::{SemanticProvider, SemanticProviderConfig};
use crate::store::json;
use crate::store::json::Json;
use crate::text;
use crate::text::Failure;
use vstd::prelude::*;
use vstd::string::StringExecFns;

verus! {

/// How to set a provider up.
#[derive(Clone, Copy, Debug, PartialEq, Eq, Structural)]
pub enum ProviderPlan {
    Cpu,
    Cuda { device_ordinal: i32, arena_max_bytes: usize },
}

/// How a provider is set up, or why it cannot be.
pub open spec fn planned(provider: SemanticProviderConfig, cuda_built: bool) -> Result<
    ProviderPlan,
    Seq<char>,
> {
    match provider.fault() {
        Some(fault) => Err(fault),
        None => match provider.provider {
            SemanticProvider::Cpu => Ok(ProviderPlan::Cpu),
            SemanticProvider::Cuda { device_ordinal } => if !cuda_built {
                Err(
                    "semantic_unavailable: CUDA provider requires building with --features semantic-cuda"@,
                )
            } else if provider.arena_max_bytes > usize::MAX {
                Err("semantic_unavailable: CUDA arena limit does not fit this platform"@)
            } else {
                Ok(
                    ProviderPlan::Cuda {
                        device_ordinal,
                        arena_max_bytes: provider.arena_max_bytes as usize,
                    },
                )
            },
        },
    }
}

/// How to set a provider up; `cuda_built` tells whether this build can use CUDA.
pub fn provider_dispatches(provider: SemanticProviderConfig, cuda_built: bool) -> (result: Result<
    ProviderPlan,
    Failure,
>)
    ensures
        match planned(provider, cuda_built) {
            Err(fault) => result is Err && text::plain(result->Err_0, fault),
            Ok(plan) => result == Ok::<ProviderPlan, Failure>(plan),
        },
{
    match provider.validate() {
        Err(failure) => return Err(failure),
        Ok(_) => {},
    }
    match provider.provider {
        SemanticProvider::Cpu => Ok(ProviderPlan::Cpu),
        SemanticProvider::Cuda { device_ordinal } => {
            if !cuda_built {
                return Err(
                    Failure::new(
                        "semantic_unavailable: CUDA provider requires building with --features semantic-cuda",
                    ),
                );
            }
            if provider.arena_max_bytes > usize::MAX as u64 {
                return Err(
                    Failure::new(
                        "semantic_unavailable: CUDA arena limit does not fit this platform",
                    ),
                );
            }
            Ok(
                ProviderPlan::Cuda {
                    device_ordinal,
                    arena_max_bytes: provider.arena_max_bytes as usize,
                },
            )
        },
    }
}

/// What a manifest says of a file: nothing, or the digest that it pins, if it pins one.
#[derive(Clone, Debug)]
pub enum Pinned {
    Missing,
    Entry(Option<String>),
}

/// A file on its way through the digest that its pin is held against. The file need not be
/// in memory as a whole.
pub struct AssetReader {
    stream: Sha256Stream,
}

impl AssetReader {
    /// What of the file was read.
    pub closed spec fn read_so_far(&self) -> Seq<u8> {
        digest::absorbed(self.stream)
    }

    pub fn new() -> (reader: Self)
        ensures
            reader.read_so_far() == Seq::<u8>::empty(),
    {
        AssetReader { stream: Sha256Stream::new() }
    }

    /// Takes in the next piece of the file.
    pub fn take(&mut self, piece: &[u8])
        ensures
            final(self).read_so_far() == old(self).read_so_far() + piece@,
    {
        self.stream.update(piece);
    }

    /// Holds the file that was read against its pin. `prefix` begins every failure.
    pub fn verify_asset_digest(self, pinned: &Pinned, name: &str, prefix: &str) -> (result: Result<
        (),
        Failure,
    >)
        ensures
            match *pinned {
                Pinned::Missing => result is Err && text::plain(
                    result->Err_0,
                    prefix@ + " pinned asset missing from manifest: "@ + name@,
                ),
                Pinned::Entry(pin) => if pin is Some && pin->0@ == digest::hex(
                    digest::sha256(self.read_so_far()),
                ) {
                    result is Ok
                } else {
                    result is Err && text::plain(
                        result->Err_0,
                        prefix@ + " pinned asset checksum mismatch: "@ + name@,
                    )
                },
            },
    {
        let sum = self.stream.finalize();
        let found = digest::hex_text(sum.as_slice());
        match pinned {
            Pinned::Missing => {
                let mut message = prefix.to_owned();
                message.append(" pinned asset missing from manifest: ");
                message.append(name);
                Err(Failure::of(message))
            },
            Pinned::Entry(pin) => {
                let matches = match pin {
                    Some(pin) => text::same_text(pin.as_str(), found.as_str()),
                    None => false,
                };
                if matches {
                    return Ok(());
                }
                let mut message = prefix.to_owned();
                message.append(" pinned asset checksum mismatch: ");
                message.append(name);
                Err(Failure::of(message))
            },
        }
    }
}

/// The digest that a manifest's assets pin for a file, if they pin one, where they list the
/// file.
pub open spec fn pin_in(assets: Json, name: Seq<char>) -> Option<Option<Seq<char>>> {
    if !assets.has(name) {
        None
    } else if assets.get(name).at("sha256"@) is Text {
        Some(Some(assets.get(name).at("sha256"@)->Text_0))
    } else {
        Some(None)
    }
}

impl Pinned {
    /// What is pinned.
    pub open spec fn pin(self) -> Option<Option<Seq<char>>> {
        match self {
            Pinned::Missing => None,
            Pinned::Entry(None) => Some(None),
            Pinned::Entry(Some(pin)) => Some(Some(pin@)),
        }
    }
}

/// What a manifest's assets say of a file.
fn pinned_in(assets: &serde_json::Value, name: &str) -> (pinned: Pinned)
    ensures
        pinned.pin() == pin_in(json::contents(*assets), name@),
{
    match json::member(assets, name) {
        None => Pinned::Missing,
        Some(asset) => match json::member(asset, "sha256") {
            None => Pinned::Entry(None),
            Some(value) => match json::text_of(value) {
                None => Pinned::Entry(None),
                Some(pin) => Pinned::Entry(Some(pin.to_owned())),
            },
        },
    }
}

/// Whether bytes are a manifest, and what it says of its assets.
pub open spec fn assets_in(manifest: Seq<u8>) -> Option<Json> {
    match json::json_value(manifest) {
        None => None,
        Some(value) => if value.at("assets"@) is Object {
            Some(value.at("assets"@))
        } else {
            None
        },
    }
}

/// Whether a file of a manifest may be read as `result`: `read` gets the name and what is
/// pinned for it.
pub open spec fn may_read<B, R: Fn(&str, &Pinned) -> Result<B, Failure>>(
    read: R,
    assets: Json,
    name: &str,
    result: Result<B, Failure>,
) -> bool {
    exists|pinned: &Pinned|
        #![trigger call_ensures(read, (name, pinned), result)]
        pinned.pin() == pin_in(assets, name@) && call_ensures(read, (name, pinned), result)
}

/// Whether a file of a manifest may be read.
pub open spec fn readable<B, R: Fn(&str, &Pinned) -> Result<B, Failure>>(
    read: R,
    assets: Json,
    name: &str,
) -> bool {
    exists|bytes: B| #[trigger] may_read(read, assets, name, Ok(bytes))
}

/// Whether the first `n` files of a list may all be read.
pub open spec fn may_read_all<B, R: Fn(&str, &Pinned) -> Result<B, Failure>>(
    read: R,
    assets: Json,
    names: Seq<&str>,
    n: int,
) -> bool {
    forall|i: int| 0 <= i < n ==> #[trigger] readable(read, assets, names[i])
}

/// Whether `result` is what the files of a list were read as, in order, or why the first one
/// that could not be read was not.
pub open spec fn files_read<B, R: Fn(&str, &Pinned) -> Result<B, Failure>>(
    read: R,
    assets: Json,
    names: Seq<&str>,
    result: Result<Vec<B>, Failure>,
) -> bool {
    match result {
        Ok(found) => {
            &&& found.len() == names.len()
            &&& forall|i: int|
                0 <= i < names.len() ==> may_read(
                    read,
                    assets,
                    names[i],
                    Ok(#[trigger] found@[i]),
                )
        },
        Err(failure) => exists|n: int|
            0 <= n < names.len() && may_read_all(read, assets, names, n) && may_read(
                read,
                assets,
                #[trigger] names[n],
                Err(failure),
            ),
    }
}

/// Whether a file of a list may be asked for once those before it were read: by its name, with
/// what is pinned for it.
pub open spec fn may_request_at<B, R: Fn(&str, &Pinned) -> Result<B, Failure>>(
    read: R,
    assets: Json,
    names: Seq<&str>,
    i: int,
) -> bool {
    may_read_all(read, assets, names, i) ==> forall|pinned: &Pinned|
        pinned.pin() == pin_in(assets, names[i]@) ==> #[trigger] call_requires(
            read,
            (names[i], pinned),
        )
}

/// Whether the files of a list may be asked for in order, up to the first that cannot be read.
pub open spec fn may_request<B, R: Fn(&str, &Pinned) -> Result<B, Failure>>(
    read: R,
    assets: Json,
    names: Seq<&str>,
) -> bool {
    forall|i: int| 0 <= i < names.len() ==> #[trigger] may_request_at(read, assets, names, i)
}

proof fn lemma_readable<B, R: Fn(&str, &Pinned) -> Result<B, Failure>>(
    read: R,
    assets: Json,
    names: Seq<&str>,
    found: Seq<B>,
)
    requires
        found.len() <= names.len(),
        forall|k: int|
            0 <= k < found.len() ==> may_read(read, assets, names[k], Ok(#[trigger] found[k])),
    ensures
        may_read_all(read, assets, names, found.len() as int),
{
    assert forall|k: int| 0 <= k < found.len() implies #[trigger] readable(
        read,
        assets,
        names[k],
    ) by {
        assert(may_read(read, assets, names[k], Ok(found[k])));
    }
}

/// Reads files of a manifest in order, each with what is pinned for it.
fn read_files<B, R: Fn(&str, &Pinned) -> Result<B, Failure>>(
    read: &R,
    assets: &serde_json::Value,
    names: &[&'static str],
) -> (result: Result<Vec<B>, Failure>)
    requires
        may_request(*read, json::contents(*assets), names@),
    ensures
        files_read(*read, json::contents(*assets), names@, result),
{
    let mut found: Vec<B> = Vec::new();
    let mut i: usize = 0;
    while i < names.len()
        invariant
            i <= names.len(),
            found.len() == i,
            may_request(*read, json::contents(*assets), names@),
            forall|k: int|
                0 <= k < i ==> may_read(
                    *read,
                    json::contents(*assets),
                    names@[k],
                    Ok(#[trigger] found@[k]),
                ),
        decreases names.len() - i,
    {
        let name = names[i];
        let pinned = pinned_in(assets, name);
        proof {
            lemma_readable(*read, json::contents(*assets), names@, found@);
            assert(may_request_at(*read, json::contents(*assets), names@, i as int));
        }
        let read_as = read(name, &pinned);
        assert(may_read(*read, json::contents(*assets), names@[i as int], read_as));
        match read_as {
            Err(failure) => {
                return Err(failure);
            },
            Ok(bytes) => found.push(bytes),
        }
        i += 1;
    }
    Ok(found)
}

/// The files of a tokenizer.
#[derive(Debug)]
pub struct TokenizerParts {
    pub tokenizer: Vec<u8>,
    pub config: Vec<u8>,
    pub special_tokens_map: Vec<u8>,
    pub tokenizer_config: Vec<u8>,
}

/// What an embedding model is built from.
#[derive(Debug)]
pub struct ModelParts {
    pub plan: ProviderPlan,
    pub tokenizer: TokenizerParts,
    pub model: Vec<u8>,
}

/// What a reranker is built from, beside the model that stays on disk.
#[derive(Debug)]
pub struct RerankerParts {
    pub plan: ProviderPlan,
    pub tokenizer: TokenizerParts,
}

/// Whether a provider, the runtime and a manifest are as loading a model needs them: `result`
/// is how to set the provider up and what the manifest says of its assets, or why not.
/// `load_runtime` is called only for a provider that is valid.
pub open spec fn ready_to_load<L: FnOnce() -> Result<(), Failure>>(
    provider: SemanticProviderConfig,
    cuda_built: bool,
    manifest: Seq<u8>,
    load_runtime: L,
    what: Seq<char>,
    result: Result<(ProviderPlan, Json), Failure>,
) -> bool {
    match provider.fault() {
        Some(fault) => result is Err && text::plain(result->Err_0, fault),
        None => exists|loaded: Result<(), Failure>| #[trigger]
            call_ensures(load_runtime, (), loaded) && match loaded {
                Err(failure) => result == Err::<(ProviderPlan, Json), Failure>(failure),
                Ok(_) => match planned(provider, cuda_built) {
                    Err(fault) => result is Err && text::plain(result->Err_0, fault),
                    Ok(plan) => match assets_in(manifest) {
                        None => result is Err && text::plain(
                            result->Err_0,
                            "invalid "@ + what + " manifest"@,
                        ),
                        Some(assets) => result == Ok::<(ProviderPlan, Json), Failure>(
                            (plan, assets),
                        ),
                    },
                },
            },
    }
}

/// Gets a provider, the runtime and a manifest ready.
fn prepare_to_load<L: FnOnce() -> Result<(), Failure>>(
    provider: SemanticProviderConfig,
    cuda_built: bool,
    manifest: &[u8],
    load_runtime: L,
    what: &str,
) -> (result: Result<(ProviderPlan, serde_json::Value), Failure>)
    requires
        provider.fault() is None ==> call_requires(load_runtime, ()),
    ensures
        match result {
            Ok((plan, value)) => {
                &&& json::contents(value).at("assets"@) is Object
                &&& ready_to_load(
                    provider,
                    cuda_built,
                    manifest@,
                    load_runtime,
                    what@,
                    Ok((plan, json::contents(value).at("assets"@))),
                )
            },
            Err(failure) => ready_to_load(
                provider,
                cuda_built,
                manifest@,
                load_runtime,
                what@,
                Err(failure),
            ),
        },
{
    match provider.validate() {
        Err(failure) => return Err(failure),
        Ok(_) => {},
    }
    match load_runtime() {
        Err(failure) => return Err(failure),
        Ok(_) => {},
    }
    let plan = match provider_dispatches(provider, cuda_built) {
        Err(failure) => return Err(failure),
        Ok(plan) => plan,
    };
    let mut message = "invalid ".to_owned();
    message.append(what);
    message.append(" manifest");
    let value = match json::parse_json(manifest) {
        None => return Err(Failure::of(message)),
        Some(value) => value,
    };
    let listed = match json::member(&value, "assets") {
        None => false,
        Some(assets) => json::members_of(assets).is_some(),
    };
    if listed {
        Ok((plan, value))
    } else {
        Err(Failure::of(message))
    }
}

/// The files that an embedding model is built from, in the order in which they are read.
pub open spec fn model_files() -> Seq<&'static str> {
    seq![
        "tokenizer.json",
        "config.json",
        "special_tokens_map.json",
        "tokenizer_config.json",
        "onnx/model.onnx",
    ]
}

/// The files of a reranker's model, which stay on disk.
pub open spec fn reranker_model_files() -> Seq<&'static str> {
    seq!["model.onnx", "model.onnx.data"]
}

/// The files of a reranker's tokenizer.
pub open spec fn reranker_tokenizer_files() -> Seq<&'static str> {
    seq![
        "tokenizer.json",
        "config.json",
        "special_tokens_map.json",
        "tokenizer_config.json",
    ]
}

/// Whether the files of a tokenizer are the first four of those that were read.
pub open spec fn tokenizer_from(parts: TokenizerParts, found: Seq<Vec<u8>>) -> bool {
    &&& found.len() >= 4
    &&& parts.tokenizer == found[0]
    &&& parts.config == found[1]
    &&& parts.special_tokens_map == found[2]
    &&& parts.tokenizer_config == found[3]
}

fn tokenizer_of(found: Vec<Vec<u8>>) -> (parts: TokenizerParts)
    requires
        found.len() == 4,
    ensures
        tokenizer_from(parts, found@),
{
    let mut found = found;
    let tokenizer_config = found.pop().unwrap();
    let special_tokens_map = found.pop().unwrap();
    let config = found.pop().unwrap();
    let tokenizer = found.pop().unwrap();
    TokenizerParts { tokenizer, config, special_tokens_map, tokenizer_config }
}

/// Whether `result` is what an embedding model is built from, or why it cannot be loaded.
pub open spec fn model_loaded<
    L: FnOnce() -> Result<(), Failure>,
    R: Fn(&str, &Pinned) -> Result<Vec<u8>, Failure>,
>(
    provider: SemanticProviderConfig,
    cuda_built: bool,
    manifest: Seq<u8>,
    load_runtime: L,
    read: R,
    result: Result<ModelParts, Failure>,
) -> bool {
    exists|ready: Result<(ProviderPlan, Json), Failure>|
        {
            &&& #[trigger] ready_to_load(
                provider,
                cuda_built,
                manifest,
                load_runtime,
                "model"@,
                ready,
            )
            &&& match ready {
                Err(failure) => result == Err::<ModelParts, Failure>(failure),
                Ok((plan, assets)) => exists|files: Result<Vec<Vec<u8>>, Failure>|
                    {
                        &&& #[trigger] files_read(
                            read,
                            assets,
                            model_files(),
                            files,
                        )
                        &&& match files {
                            Err(failure) => result == Err::<ModelParts, Failure>(failure),
                            Ok(found) => {
                                &&& result is Ok
                                &&& result->Ok_0.plan == plan
                                &&& tokenizer_from(result->Ok_0.tokenizer, found@)
                                &&& result->Ok_0.model == found@[4]
                            },
                        }
                    },
            }
        }
}

/// Gathers what an embedding model is built from. `manifest` pins its files, `load_runtime`
/// loads the runtime, and `read` reads a file and holds it against what is pinned for it.
pub fn load_verified_model_with_runtime<
    L: FnOnce() -> Result<(), Failure>,
    R: Fn(&str, &Pinned) -> Result<Vec<u8>, Failure>,
>(
    provider: SemanticProviderConfig,
    cuda_built: bool,
    manifest: &[u8],
    load_runtime: L,
    read: R,
) -> (result: Result<ModelParts, Failure>)
    requires
        provider.fault() is None ==> call_requires(load_runtime, ()),
        forall|plan: ProviderPlan, assets: Json| #[trigger]
            ready_to_load(
                provider,
                cuda_built,
                manifest@,
                load_runtime,
                "model"@,
                Ok((plan, assets)),
            ) ==> may_request(read, assets, model_files()),
    ensures
        model_loaded(provider, cuda_built, manifest@, load_runtime, read, result),
{
    let (plan, value) = match prepare_to_load(provider, cuda_built, manifest, load_runtime, "model") {
        Err(failure) => return Err(failure),
        Ok(ready) => ready,
    };
    let names: [&'static str; 5] = [
        "tokenizer.json",
        "config.json",
        "special_tokens_map.json",
        "tokenizer_config.json",
        "onnx/model.onnx",
    ];
    assert(names@ =~= model_files());
    match json::member(&value, "assets") {
        None => Err(Failure::new("invalid model manifest")),
        Some(assets) => match read_files(&read, assets, names.as_slice()) {
            Err(failure) => Err(failure),
            Ok(found) => {
                let mut found = found;
                let model = found.pop().unwrap();
                Ok(ModelParts { plan, tokenizer: tokenizer_of(found), model })
            },
        },
    }
}

/// Whether `result` is what a reranker is built from, or why it cannot be loaded.
pub open spec fn reranker_loaded<
    L: FnOnce() -> Result<(), Failure>,
    V: Fn(&str, &Pinned) -> Result<(), Failure>,
    R: Fn(&str, &Pinned) -> Result<Vec<u8>, Failure>,
>(
    provider: SemanticProviderConfig,
    cuda_built: bool,
    manifest: Seq<u8>,
    load_runtime: L,
    verify: V,
    read: R,
    result: Result<RerankerParts, Failure>,
) -> bool {
    exists|ready: Result<(ProviderPlan, Json), Failure>|
        {
            &&& #[trigger] ready_to_load(
                provider,
                cuda_built,
                manifest,
                load_runtime,
                "reranker"@,
                ready,
            )
            &&& match ready {
                Err(failure) => result == Err::<RerankerParts, Failure>(failure),
                Ok((plan, assets)) => exists|verified: Result<Vec<()>, Failure>|
                    {
                        &&& #[trigger] files_read(
                            verify,
                            assets,
                            reranker_model_files(),
                            verified,
                        )
                        &&& match verified {
                            Err(failure) => result == Err::<RerankerParts, Failure>(failure),
                            Ok(_) => reranker_tokenized(plan, assets, read, result),
                        }
                    },
            }
        }
}

/// Whether `result` is what a reranker with a verified model is built from, or why its
/// tokenizer cannot be read.
pub open spec fn reranker_tokenized<R: Fn(&str, &Pinned) -> Result<Vec<u8>, Failure>>(
    plan: ProviderPlan,
    assets: Json,
    read: R,
    result: Result<RerankerParts, Failure>,
) -> bool {
    exists|files: Result<Vec<Vec<u8>>, Failure>|
        {
            &&& #[trigger] files_read(read, assets, reranker_tokenizer_files(), files)
            &&& match files {
                Err(failure) => result == Err::<RerankerParts, Failure>(failure),
                Ok(found) => {
                    &&& result is Ok
                    &&& result->Ok_0.plan == plan
                    &&& tokenizer_from(result->Ok_0.tokenizer, found@)
                },
            }
        }
}

/// Whether the files of a reranker may be asked for: those of its tokenizer once those of its
/// model were verified.
pub open spec fn may_request_reranker<
    V: Fn(&str, &Pinned) -> Result<(), Failure>,
    R: Fn(&str, &Pinned) -> Result<Vec<u8>, Failure>,
>(verify: V, read: R, assets: Json) -> bool {
    &&& may_request(verify, assets, reranker_model_files())
    &&& forall|verified: Vec<()>| #[trigger]
        files_read(verify, assets, reranker_model_files(), Ok(verified)) ==> may_request(
            read,
            assets,
            reranker_tokenizer_files(),
        )
}

/// Gathers what a reranker is built from. Its model is read from disk when it is built, so
/// `verify` only holds the files of the model against what is pinned for them.
pub fn load_verified_reranker_with_runtime<
    L: FnOnce() -> Result<(), Failure>,
    V: Fn(&str, &Pinned) -> Result<(), Failure>,
    R: Fn(&str, &Pinned) -> Result<Vec<u8>, Failure>,
>(
    provider: SemanticProviderConfig,
    cuda_built: bool,
    manifest: &[u8],
    load_runtime: L,
    verify: V,
    read: R,
) -> (result: Result<RerankerParts, Failure>)
    requires
        provider.fault() is None ==> call_requires(load_runtime, ()),
        forall|plan: ProviderPlan, assets: Json| #[trigger]
            ready_to_load(
                provider,
                cuda_built,
                manifest@,
                load_runtime,
                "reranker"@,
                Ok((plan, assets)),
            ) ==> may_request_reranker(verify, read, assets),
    ensures
        reranker_loaded(provider, cuda_built, manifest@, load_runtime, verify, read, result),
{
    let (plan, value) = match prepare_to_load(
        provider,
        cuda_built,
        manifest,
        load_runtime,
        "reranker",
    ) {
        Err(failure) => return Err(failure),
        Ok(ready) => ready,
    };
    let models: [&'static str; 2] = ["model.onnx", "model.onnx.data"];
    let tokens: [&'static str; 4] = [
        "tokenizer.json",
        "config.json",
        "special_tokens_map.json",
        "tokenizer_config.json",
    ];
    assert(models@ =~= reranker_model_files());
    assert(tokens@ =~= reranker_tokenizer_files());
    match json::member(&value, "assets") {
        None => Err(Failure::new("invalid reranker manifest")),
        Some(assets) => {
            match read_files(&verify, assets, models.as_slice()) {
                Err(failure) => return Err(failure),
                Ok(_) => {},
            }
            match read_files(&read, assets, tokens.as_slice()) {
                Err(failure) => Err(failure),
                Ok(found) => Ok(RerankerParts { plan, tokenizer: tokenizer_of(found) }),
            }
        },
    }
}

} // verus!
