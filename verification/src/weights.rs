//! The weight bundle.
//!
//! A bundle is a JSON manifest plus one flat little-endian weight blob. The
//! manifest names every tensor, so weights are addressed by the names of the
//! model's own modules (`encoder.0.conv.weight`).

use std::path::PathBuf;

use sha2::{Digest, Sha256};
use vstd::hash_map::StringHashMap;
use vstd::prelude::*;

use crate::bytes::{long_at, u32le};
use crate::text::{hexadecimal, hexadecimal_text};

verus! {

/// `serde_json::Value`: any JSON value. The library carries it as it came and
/// looks at nothing inside.
#[verifier::external_type_specification]
#[verifier::external_body]
pub struct ExValue(serde_json::Value);

/// `std::path::PathBuf`: where a bundle lies. The library carries it as it came.
#[verifier::external_type_specification]
#[verifier::external_body]
pub struct ExPathBuf(std::path::PathBuf);

/// `<serde_json::Value as Clone>::clone`, which the crate derives: the copy is
/// the value that was copied.
pub assume_specification[ <serde_json::Value as Clone>::clone ](
    value: &serde_json::Value,
) -> (copy: serde_json::Value)
    ensures
        copy == *value,
;

/// The SHA-256 digest of a message.
pub uninterp spec fn sha256_of(message: Seq<u8>) -> Seq<u8>;

/// `sha2::Sha256::digest` through `digest::Digest`: the 32-byte digest of the
/// whole message, a function of its bytes alone.
#[verifier::external_body]
fn sha256(message: &[u8]) -> (digest: Vec<u8>)
    ensures
        digest@ == sha256_of(message@),
        digest@.len() == 32,
{
    Sha256::digest(message).to_vec()
}

/// One tensor's place in the weight blob.
#[derive(Debug)]
pub struct TensorMeta {
    pub name: String,
    pub shape: Vec<usize>,
    pub dtype: String,
    pub offset: usize,
    pub count: usize,
}

/// What the manifest says of the weight blob.
#[derive(Debug)]
pub struct WeightsMeta {
    pub file: String,
    pub dtype: String,
    pub byte_length: usize,
    pub sha256: String,
}

/// The manifest.
#[derive(Debug)]
pub struct Bundle {
    pub format: String,
    pub version: u32,
    pub model: String,
    pub checkpoint: String,
    pub config: serde_json::Value,
    pub weights: WeightsMeta,
    pub tensors: Vec<TensorMeta>,
}

impl Clone for TensorMeta {
    fn clone(&self) -> (copy: Self)
        ensures
            copy.name@ == self.name@,
            copy.shape@ == self.shape@,
            copy.dtype@ == self.dtype@,
            copy.offset == self.offset,
            copy.count == self.count,
    {
        TensorMeta {
            name: self.name.clone(),
            shape: vstd::slice::slice_to_vec(self.shape.as_slice()),
            dtype: self.dtype.clone(),
            offset: self.offset,
            count: self.count,
        }
    }
}

impl Clone for WeightsMeta {
    fn clone(&self) -> (copy: Self)
        ensures
            copy.file@ == self.file@,
            copy.dtype@ == self.dtype@,
            copy.byte_length == self.byte_length,
            copy.sha256@ == self.sha256@,
    {
        WeightsMeta {
            file: self.file.clone(),
            dtype: self.dtype.clone(),
            byte_length: self.byte_length,
            sha256: self.sha256.clone(),
        }
    }
}

/// Whether two entries say the same of a tensor.
pub open spec fn same_tensor(a: TensorMeta, b: TensorMeta) -> bool {
    &&& a.name@ == b.name@
    &&& a.shape@ == b.shape@
    &&& a.dtype@ == b.dtype@
    &&& a.offset == b.offset
    &&& a.count == b.count
}

impl Clone for Bundle {
    fn clone(&self) -> (copy: Self)
        ensures
            copy.format@ == self.format@,
            copy.version == self.version,
            copy.model@ == self.model@,
            copy.checkpoint@ == self.checkpoint@,
            copy.config == self.config,
            copy.weights.file@ == self.weights.file@,
            copy.weights.dtype@ == self.weights.dtype@,
            copy.weights.byte_length == self.weights.byte_length,
            copy.weights.sha256@ == self.weights.sha256@,
            copy.tensors@.len() == self.tensors@.len(),
            forall|i: int|
                0 <= i < copy.tensors@.len() ==> same_tensor(
                    #[trigger] copy.tensors@[i],
                    self.tensors@[i],
                ),
    {
        let mut tensors: Vec<TensorMeta> = Vec::with_capacity(self.tensors.len());
        while tensors.len() < self.tensors.len()
            invariant
                tensors@.len() <= self.tensors@.len(),
                forall|i: int|
                    0 <= i < tensors@.len() ==> same_tensor(
                        #[trigger] tensors@[i],
                        self.tensors@[i],
                    ),
            decreases self.tensors@.len() - tensors@.len(),
        {
            tensors.push(self.tensors[tensors.len()].clone());
        }
        Bundle {
            format: self.format.clone(),
            version: self.version,
            model: self.model.clone(),
            checkpoint: self.checkpoint.clone(),
            config: self.config.clone(),
            weights: self.weights.clone(),
            tensors,
        }
    }
}

/// Why a manifest was refused.
#[derive(Debug)]
pub enum BundleError {
    /// Not JSON of a manifest's shape.
    NotValid,
    /// Of another format: this one.
    NotABundle(String),
    /// Of a version that is not supported.
    UnsupportedVersion(u32),
    /// With weights of a type that is not supported.
    UnsupportedDtype(String),
}

/// The position of the first tensor of this name.
pub open spec fn first_named(tensors: Seq<TensorMeta>, name: Seq<char>) -> Option<int>
    decreases tensors.len(),
{
    if tensors.len() == 0 {
        None
    } else {
        match first_named(tensors.drop_last(), name) {
            Some(position) => Some(position),
            None => if tensors.last().name@ == name {
                Some(tensors.len() - 1)
            } else {
                None
            },
        }
    }
}

/// The position of the last tensor of this name.
pub open spec fn last_named(tensors: Seq<TensorMeta>, name: Seq<char>) -> Option<int>
    decreases tensors.len(),
{
    if tensors.len() == 0 {
        None
    } else if tensors.last().name@ == name {
        Some(tensors.len() - 1)
    } else {
        last_named(tensors.drop_last(), name)
    }
}

impl Bundle {
    /// Whether the format tag is a bundle's.
    pub open spec fn is_bundle(self) -> bool {
        self.format@ == "stemsplits-bundle"@
    }

    /// Whether the weights are 32-bit floats.
    pub open spec fn has_float_weights(self) -> bool {
        self.weights.dtype@ == "f32"@
    }

    /// The manifest that a JSON text was parsed to, if it is one that can be
    /// used. Refusals come in order: the text, the format, the version, the
    /// weights.
    pub fn from_json(parsed: Option<Bundle>) -> (bundle: Result<Bundle, BundleError>)
        ensures
            match parsed {
                None => bundle matches Err(BundleError::NotValid),
                Some(parsed) => if !parsed.is_bundle() {
                    bundle matches Err(BundleError::NotABundle(format)) && format@
                        == parsed.format@
                } else if parsed.version != 1 {
                    bundle matches Err(BundleError::UnsupportedVersion(version)) && version
                        == parsed.version
                } else if !parsed.has_float_weights() {
                    bundle matches Err(BundleError::UnsupportedDtype(dtype)) && dtype@
                        == parsed.weights.dtype@
                } else {
                    bundle matches Ok(bundle) && bundle == parsed
                },
            },
    {
        match parsed {
            None => Err(BundleError::NotValid),
            Some(bundle) => {
                if bundle.format != "stemsplits-bundle".to_owned() {
                    return Err(BundleError::NotABundle(bundle.format));
                }
                if bundle.version != 1 {
                    return Err(BundleError::UnsupportedVersion(bundle.version));
                }
                if bundle.weights.dtype != "f32".to_owned() {
                    return Err(BundleError::UnsupportedDtype(bundle.weights.dtype));
                }
                Ok(bundle)
            },
        }
    }

    /// The first tensor of this name.
    pub fn tensor(&self, name: &str) -> (tensor: Option<&TensorMeta>)
        ensures
            match first_named(self.tensors@, name@) {
                Some(position) => 0 <= position < self.tensors@.len() && tensor == Some(
                    &self.tensors@[position],
                ),
                None => tensor is None,
            },
    {
        let wanted = name.to_owned();
        let mut position: usize = 0;
        while position < self.tensors.len()
            invariant
                wanted@ == name@,
                position <= self.tensors@.len(),
                first_named(self.tensors@.take(position as int), name@) is None,
            decreases self.tensors@.len() - position,
        {
            proof {
                let tensors = self.tensors@;
                assert(tensors.take(position + 1).drop_last() =~= tensors.take(position as int));
                assert(tensors.take(position + 1).last() == tensors[position as int]);
                lemma_first_stays(tensors, name@, position + 1);
            }
            if self.tensors[position].name == wanted {
                return Some(&self.tensors[position]);
            }
            position = position + 1;
        }
        proof {
            assert(self.tensors@.take(position as int) =~= self.tensors@);
        }
        None
    }
}

proof fn lemma_first_stays(tensors: Seq<TensorMeta>, name: Seq<char>, count: int)
    requires
        0 <= count <= tensors.len(),
    ensures
        first_named(tensors.take(count), name) is Some ==> first_named(tensors, name)
            == first_named(tensors.take(count), name),
    decreases tensors.len() - count,
{
    if count == tensors.len() {
        assert(tensors.take(count) =~= tensors);
    } else {
        lemma_first_stays(tensors, name, count + 1);
        assert(tensors.take(count + 1).drop_last() =~= tensors.take(count));
    }
}

/// A position that was found holds a tensor of the name.
pub proof fn lemma_last_named(tensors: Seq<TensorMeta>, name: Seq<char>)
    ensures
        match last_named(tensors, name) {
            Some(position) => 0 <= position < tensors.len() && tensors[position].name@ == name
                && forall|later: int|
                position < later < tensors.len() ==> (#[trigger] tensors[later]).name@ != name,
            None => forall|any: int|
                0 <= any < tensors.len() ==> (#[trigger] tensors[any]).name@ != name,
        },
    decreases tensors.len(),
{
    if tensors.len() > 0 && tensors.last().name@ != name {
        lemma_last_named(tensors.drop_last(), name);
        assert forall|any: int| 0 <= any < tensors.len() - 1 implies tensors.drop_last()[any]
            == #[trigger] tensors[any] by {}
    }
}

proof fn lemma_first_named(tensors: Seq<TensorMeta>, name: Seq<char>)
    ensures
        match first_named(tensors, name) {
            Some(position) => 0 <= position < tensors.len() && tensors[position].name@ == name
                && forall|earlier: int|
                0 <= earlier < position ==> (#[trigger] tensors[earlier]).name@ != name,
            None => forall|any: int|
                0 <= any < tensors.len() ==> (#[trigger] tensors[any]).name@ != name,
        },
    decreases tensors.len(),
{
    if tensors.len() > 0 {
        lemma_first_named(tensors.drop_last(), name);
        assert forall|any: int| 0 <= any < tensors.len() - 1 implies tensors.drop_last()[any]
            == #[trigger] tensors[any] by {}
    }
}

/// Where no two tensors share a name, the manifest and the loaded weights look
/// a name up to the same tensor.
pub proof fn law_unique_names_have_one_position(tensors: Seq<TensorMeta>, name: Seq<char>)
    requires
        forall|i: int, j: int|
            0 <= i < j < tensors.len() ==> (#[trigger] tensors[i]).name@ != (
            #[trigger] tensors[j]).name@,
    ensures
        first_named(tensors, name) == last_named(tensors, name),
{
    lemma_first_named(tensors, name);
    lemma_last_named(tensors, name);
}

/// The number of weights that the tensors hold together.
pub open spec fn total_count(tensors: Seq<TensorMeta>) -> nat
    decreases tensors.len(),
{
    if tensors.len() == 0 {
        0
    } else {
        total_count(tensors.drop_last()) + tensors.last().count as nat
    }
}

/// One past the last byte of a tensor.
pub open spec fn end_of(tensor: TensorMeta) -> int {
    tensor.offset + 4 * tensor.count
}

/// The bit patterns of `count` little-endian weights.
pub open spec fn patterns(bytes: Seq<u8>, offset: int, count: nat) -> Seq<u32> {
    Seq::new(count, |i: int| long_at(bytes, offset + 4 * i))
}

/// What a tensor of the bundle holds: its shape and its weights' bit patterns.
#[verifier::ext_equal]
pub struct Block {
    pub shape: Seq<usize>,
    pub bits: Seq<u32>,
}

/// What an open bundle holds: its manifest, where it came from and its blob.
#[verifier::ext_equal]
pub struct Store {
    pub bundle: Bundle,
    pub directory: PathBuf,
    pub bytes: Seq<u8>,
}

impl Store {
    /// The tensor of this name: the last that the manifest gives it to, unless
    /// it runs past the blob.
    pub open spec fn find(self, name: Seq<char>) -> Option<Block> {
        match last_named(self.bundle.tensors@, name) {
            Some(position) => {
                let tensor = self.bundle.tensors@[position];
                if end_of(tensor) <= self.bytes.len() {
                    Some(
                        Block {
                            shape: tensor.shape@,
                            bits: patterns(self.bytes, tensor.offset as int, tensor.count as nat),
                        },
                    )
                } else {
                    None
                }
            },
            None => None,
        }
    }

    /// Whether the tensor of this name, if the manifest has one, ends at an
    /// address that fits in `usize`.
    pub open spec fn reads(self, name: Seq<char>) -> bool {
        last_named(self.bundle.tensors@, name) matches Some(position) ==> end_of(
            self.bundle.tensors@[position],
        ) <= usize::MAX
    }
}

/// Why a weight blob was refused.
#[derive(Debug)]
pub enum WeightsError {
    /// Its length, and the length that the manifest gives.
    LengthMismatch(usize, usize),
    /// Its digest, which is not the one that the manifest gives.
    DigestMismatch(String),
}

/// What opening a blob comes to, given the digest of its bytes.
pub open spec fn refusal(meta: WeightsMeta, length: nat, digest: Seq<u8>) -> bool {
    length != meta.byte_length || hexadecimal(digest) != meta.sha256@
}

/// Holds a blob of this length and digest against the manifest.
pub fn verified(meta: &WeightsMeta, length: usize, digest: &[u8]) -> (outcome: Result<
    (),
    WeightsError,
>)
    ensures
        outcome is Err <==> refusal(*meta, length as nat, digest@),
        match outcome {
            Ok(()) => true,
            Err(WeightsError::LengthMismatch(actual, expected)) => actual == length && expected
                == meta.byte_length && actual != expected,
            Err(WeightsError::DigestMismatch(text)) => length == meta.byte_length && text@
                == hexadecimal(digest@) && text@ != meta.sha256@,
        },
{
    if length != meta.byte_length {
        return Err(WeightsError::LengthMismatch(length, meta.byte_length));
    }
    let text = hexadecimal_text(digest);
    if text != meta.sha256 {
        return Err(WeightsError::DigestMismatch(text));
    }
    Ok(())
}

/// A bundle's manifest and its weights, resident.
pub struct Weights {
    bundle: Bundle,
    directory: PathBuf,
    bytes: Vec<u8>,
    index: StringHashMap<usize>,
}

impl View for Weights {
    type V = Store;

    closed spec fn view(&self) -> Store {
        Store { bundle: self.bundle, directory: self.directory, bytes: self.bytes@ }
    }
}

/// Whether a map holds the last position of every name among these tensors,
/// and nothing else.
spec fn indexes(index: Map<Seq<char>, usize>, tensors: Seq<TensorMeta>) -> bool {
    forall|name: Seq<char>|
        match last_named(tensors, name) {
            Some(position) => #[trigger] index.contains_key(name) && index[name] == position,
            None => !index.contains_key(name),
        }
}

impl Weights {
    /// Every name is indexed, and the blob is the one that the manifest
    /// describes.
    pub closed spec fn wf(self) -> bool {
        &&& indexes(self.index@, self.bundle.tensors@)
        &&& !refusal(self.bundle.weights, self.bytes@.len(), sha256_of(self.bytes@))
    }

    /// The weights of a bundle that was read from a directory. Verification is
    /// not optional: a blob that does not match its manifest's length and
    /// digest is refused.
    pub fn open(directory: PathBuf, bundle: Bundle, bytes: Vec<u8>) -> (weights: Result<
        Weights,
        WeightsError,
    >)
        ensures
            weights is Err <==> refusal(bundle.weights, bytes@.len(), sha256_of(bytes@)),
            match weights {
                Ok(weights) => weights.wf() && weights@ == (Store {
                    bundle,
                    directory,
                    bytes: bytes@,
                }),
                Err(WeightsError::LengthMismatch(actual, expected)) => actual == bytes@.len()
                    && expected == bundle.weights.byte_length && actual != expected,
                Err(WeightsError::DigestMismatch(text)) => bytes@.len()
                    == bundle.weights.byte_length && text@ == hexadecimal(sha256_of(bytes@)),
            },
    {
        let digest = sha256(bytes.as_slice());
        match verified(&bundle.weights, bytes.len(), digest.as_slice()) {
            Err(error) => return Err(error),
            Ok(()) => {},
        }
        let mut index: StringHashMap<usize> = StringHashMap::new();
        let mut position: usize = 0;
        while position < bundle.tensors.len()
            invariant
                position <= bundle.tensors@.len(),
                indexes(index@, bundle.tensors@.take(position as int)),
            decreases bundle.tensors@.len() - position,
        {
            let ghost before = index@;
            index.insert(bundle.tensors[position].name.clone(), position);
            proof {
                let shorter = bundle.tensors@.take(position as int);
                let longer = bundle.tensors@.take(position + 1);
                assert(longer.drop_last() =~= shorter);
                assert forall|name: Seq<char>|
                    match last_named(longer, name) {
                        Some(found) => #[trigger] index@.contains_key(name) && index@[name]
                            == found,
                        None => !index@.contains_key(name),
                    } by {
                    assert(before.contains_key(name) || !before.contains_key(name));
                }
            }
            position = position + 1;
        }
        proof {
            assert(bundle.tensors@.take(position as int) =~= bundle.tensors@);
        }
        Ok(Weights { bundle, directory, bytes, index })
    }

    /// The manifest.
    pub fn bundle(&self) -> (bundle: &Bundle)
        ensures
            *bundle == self@.bundle,
    {
        &self.bundle
    }

    /// Where the bundle was read from.
    pub fn directory(&self) -> (directory: &PathBuf)
        ensures
            *directory == self@.directory,
    {
        &self.directory
    }

    /// Whether the tensor of this name, if the manifest has one, ends at an
    /// address that fits in `usize`.
    pub fn can_read(&self, name: &str) -> (can: bool)
        requires
            self.wf(),
        ensures
            can == self@.reads(name@),
    {
        proof {
            lemma_last_named(self.bundle.tensors@, name@);
            assert(self.index@.contains_key(name@) || !self.index@.contains_key(name@));
        }
        match self.index.get(name) {
            Some(position) => {
                let meta = &self.bundle.tensors[*position];
                meta.count <= usize::MAX / 4 && meta.offset <= usize::MAX - 4 * meta.count
            },
            None => true,
        }
    }

    /// A tensor's weights by its name.
    pub fn tensor(&self, name: &str) -> (tensor: Option<Tensor>)
        requires
            self.wf(),
            self@.reads(name@),
        ensures
            match self@.find(name@) {
                Some(block) => tensor matches Some(tensor) && tensor@ == block,
                None => tensor is None,
            },
    {
        proof {
            lemma_last_named(self.bundle.tensors@, name@);
            assert(self.index@.contains_key(name@) || !self.index@.contains_key(name@));
        }
        let position = match self.index.get(name) {
            Some(position) => *position,
            None => return None,
        };
        let meta = &self.bundle.tensors[position];
        assert(end_of(self.bundle.tensors@[position as int]) <= usize::MAX);
        let end = meta.offset + meta.count * 4;
        if end > self.bytes.len() {
            return None;
        }
        let mut data: Vec<u32> = Vec::new();
        while data.len() < meta.count
            invariant
                end == meta.offset + 4 * meta.count,
                end <= self.bytes@.len(),
                data@.len() <= meta.count,
                data@ =~= patterns(self.bytes@, meta.offset as int, data@.len()),
            decreases meta.count - data@.len(),
        {
            data.push(u32le(self.bytes.as_slice(), meta.offset + 4 * data.len()));
        }
        Some(Tensor { shape: vstd::slice::slice_to_vec(meta.shape.as_slice()), data })
    }

    /// How many weights the bundle holds.
    pub fn parameter_count(&self) -> (count: usize)
        requires
            total_count(self@.bundle.tensors@) <= usize::MAX,
        ensures
            count == total_count(self@.bundle.tensors@),
    {
        let mut count: usize = 0;
        let mut position: usize = 0;
        while position < self.bundle.tensors.len()
            invariant
                position <= self.bundle.tensors@.len(),
                total_count(self.bundle.tensors@) <= usize::MAX,
                count == total_count(self.bundle.tensors@.take(position as int)),
            decreases self.bundle.tensors@.len() - position,
        {
            proof {
                let tensors = self.bundle.tensors@;
                assert(tensors.take(position + 1).drop_last() =~= tensors.take(position as int));
                lemma_count_grows(tensors, position + 1);
            }
            count = count + self.bundle.tensors[position].count;
            position = position + 1;
        }
        proof {
            assert(self.bundle.tensors@.take(position as int) =~= self.bundle.tensors@);
        }
        count
    }
}

/// Open weights are the blob that their own manifest describes.
pub proof fn law_open_weights_match_their_manifest(weights: Weights)
    requires
        weights.wf(),
    ensures
        weights@.bytes.len() == weights@.bundle.weights.byte_length,
        hexadecimal(sha256_of(weights@.bytes)) == weights@.bundle.weights.sha256@,
{
}

proof fn lemma_count_grows(tensors: Seq<TensorMeta>, count: int)
    requires
        0 <= count <= tensors.len(),
    ensures
        total_count(tensors.take(count)) <= total_count(tensors),
    decreases tensors.len() - count,
{
    if count == tensors.len() {
        assert(tensors.take(count) =~= tensors);
    } else {
        lemma_count_grows(tensors, count + 1);
        assert(tensors.take(count + 1).drop_last() =~= tensors.take(count));
    }
}

/// One tensor's shape and its weights' bit patterns.
#[derive(Debug)]
pub struct Tensor {
    shape: Vec<usize>,
    data: Vec<u32>,
}

impl View for Tensor {
    type V = Block;

    closed spec fn view(&self) -> Block {
        Block { shape: self.shape@, bits: self.data@ }
    }
}

impl Tensor {
    /// The extents.
    pub fn shape(&self) -> (shape: &[usize])
        ensures
            shape@ == self@.shape,
    {
        self.shape.as_slice()
    }

    /// The weights' bit patterns, in row-major order.
    pub fn data(&self) -> (data: &[u32])
        ensures
            data@ == self@.bits,
    {
        self.data.as_slice()
    }
}

} // verus!
