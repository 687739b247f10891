//! Which tensor of a bundle becomes which part of the network.

use vstd::arithmetic::power2::pow2;
use vstd::prelude::*;

use crate::arithmetic::Arithmetic;
use crate::dconv::DConv;
use crate::layers::{AttentionWeights, Layer, Tail};
use crate::model::HtDemucs;
use crate::parameters::{parameter, Affine};
use crate::text::decimal;
use crate::weights::Store;

verus! {

/// Whether a weight and a bias are the tensors of this name.
pub open spec fn named<A: Arithmetic>(module: Affine<A>, store: Store, name: Seq<char>) -> bool {
    &&& module.weight@ == parameter::<A>(store, name + ".weight"@)
    &&& module.bias@ == parameter::<A>(store, name + ".bias"@)
}

/// Whether a residual branch of two layers is made of the tensors of this name:
/// layer `j` has its taps two to the `j` apart, an eighth of the channels in
/// between, and tensors numbered as its steps are.
pub open spec fn branch_named<A: Arithmetic>(
    branch: DConv<A>,
    store: Store,
    name: Seq<char>,
    channels: usize,
) -> bool {
    &&& branch.layers@.len() == 2
    &&& forall|j: int|
        0 <= j < 2 ==> {
            let layer = #[trigger] branch.layers@[j];
            let base = name + ".layers."@ + decimal(j as nat);
            &&& named::<A>(layer.conv1, store, base + ".0"@)
            &&& named::<A>(layer.norm1, store, base + ".1"@)
            &&& named::<A>(layer.conv2, store, base + ".3"@)
            &&& named::<A>(layer.norm2, store, base + ".4"@)
            &&& layer.scale@ == parameter::<A>(store, base + ".6.scale"@)
            &&& layer.dilation == pow2(j as nat)
            &&& layer.hidden == channels / 8
            &&& layer.channels == channels
        }
}

/// How many channels the encoders give, level by level.
pub open spec fn widths() -> Seq<usize> {
    seq![48, 96, 192, 384]
}

/// Every encoder and decoder is made of the tensors of its own name and number.
/// Decoders are numbered from the deepest, so their channels run backwards, and
/// only the last ends without an activation.
pub proof fn law_levels_are_loaded_by_name<A: Arithmetic>(
    model: HtDemucs<A>,
    store: Store,
    i: int,
)
    requires
        model.is_from(store),
        0 <= i < 4,
    ensures
        model.encoders@.len() == 4,
        model.tencoders@.len() == 4,
        model.decoders@.len() == 4,
        model.tdecoders@.len() == 4,
        model.encoders@[i].freq,
        !model.tencoders@[i].freq,
        model.decoders@[i].freq,
        !model.tdecoders@[i].freq,
        model.decoders@[i].last == (i == 3),
        model.tdecoders@[i].last == (i == 3),
        model.decoders@[i].pad == 2,
        model.tdecoders@[i].pad == 2,
        named::<A>(model.encoders@[i].conv, store, "encoder."@ + decimal(i as nat) + ".conv"@),
        named::<A>(
            model.encoders@[i].rewrite,
            store,
            "encoder."@ + decimal(i as nat) + ".rewrite"@,
        ),
        branch_named::<A>(
            model.encoders@[i].dconv,
            store,
            "encoder."@ + decimal(i as nat) + ".dconv"@,
            widths()[i],
        ),
        named::<A>(model.tencoders@[i].conv, store, "tencoder."@ + decimal(i as nat) + ".conv"@),
        named::<A>(
            model.tencoders@[i].rewrite,
            store,
            "tencoder."@ + decimal(i as nat) + ".rewrite"@,
        ),
        branch_named::<A>(
            model.tencoders@[i].dconv,
            store,
            "tencoder."@ + decimal(i as nat) + ".dconv"@,
            widths()[i],
        ),
        named::<A>(
            model.decoders@[i].conv_tr,
            store,
            "decoder."@ + decimal(i as nat) + ".conv_tr"@,
        ),
        named::<A>(
            model.decoders@[i].rewrite,
            store,
            "decoder."@ + decimal(i as nat) + ".rewrite"@,
        ),
        branch_named::<A>(
            model.decoders@[i].dconv,
            store,
            "decoder."@ + decimal(i as nat) + ".dconv"@,
            widths()[3 - i],
        ),
        named::<A>(
            model.tdecoders@[i].conv_tr,
            store,
            "tdecoder."@ + decimal(i as nat) + ".conv_tr"@,
        ),
        named::<A>(
            model.tdecoders@[i].rewrite,
            store,
            "tdecoder."@ + decimal(i as nat) + ".rewrite"@,
        ),
        branch_named::<A>(
            model.tdecoders@[i].dconv,
            store,
            "tdecoder."@ + decimal(i as nat) + ".dconv"@,
            widths()[3 - i],
        ),
{
    reveal(HtDemucs::is_from);
    let encoder = model.encoders@[i];
}

/// The frequency embedding and the four convolutions about the transformer are
/// made of the tensors of their own names. The embedding counts ten times.
pub proof fn law_the_middle_is_loaded_by_name<A: Arithmetic>(model: HtDemucs<A>, store: Store)
    requires
        model.is_from(store),
    ensures
        model.frequency_embedding.weight@ == parameter::<A>(
            store,
            "freq_emb.embedding.weight"@,
        ),
        model.frequency_embedding.scale == A::literal_spec(10, 1),
        model.channel_upsampler.weight@ == parameter::<A>(
            store,
            "channel_upsampler"@ + ".weight"@,
        ),
        model.channel_upsampler.bias@ == parameter::<A>(store, "channel_upsampler"@ + ".bias"@),
        model.channel_upsampler_t.weight@ == parameter::<A>(
            store,
            "channel_upsampler_t"@ + ".weight"@,
        ),
        model.channel_upsampler_t.bias@ == parameter::<A>(
            store,
            "channel_upsampler_t"@ + ".bias"@,
        ),
        model.channel_downsampler.weight@ == parameter::<A>(
            store,
            "channel_downsampler"@ + ".weight"@,
        ),
        model.channel_downsampler.bias@ == parameter::<A>(
            store,
            "channel_downsampler"@ + ".bias"@,
        ),
        model.channel_downsampler_t.weight@ == parameter::<A>(
            store,
            "channel_downsampler_t"@ + ".weight"@,
        ),
        model.channel_downsampler_t.bias@ == parameter::<A>(
            store,
            "channel_downsampler_t"@ + ".bias"@,
        ),
        model.transformer.heads == 8,
        model.transformer.max_period == A::literal_spec(10_000, 1),
        model.transformer.weight_pos_embed == A::one_spec(),
        named::<A>(model.transformer.norm_in, store, "crosstransformer"@ + ".norm_in"@),
        named::<A>(model.transformer.norm_in_t, store, "crosstransformer"@ + ".norm_in_t"@),
        model.transformer.layers@.len() == 5,
        model.transformer.layers_t@.len() == 5,
        store.find("crosstransformer"@ + ".norm_in.weight"@) matches Some(block)
            && model.transformer.dim == block.shape[0],
{
    reveal(HtDemucs::is_from);
}

/// Whether an attention is made of the tensors of this name.
pub open spec fn attention_named<A: Arithmetic>(
    attention: AttentionWeights<A>,
    store: Store,
    name: Seq<char>,
) -> bool {
    &&& attention.in_proj.weight@ == parameter::<A>(store, name + ".in_proj_weight"@)
    &&& attention.in_proj.bias@ == parameter::<A>(store, name + ".in_proj_bias"@)
    &&& named::<A>(attention.out_proj, store, name + ".out_proj"@)
}

/// Whether what ends a layer is made of the tensors of this name.
pub open spec fn tail_named<A: Arithmetic>(tail: Tail<A>, store: Store, name: Seq<char>) -> bool {
    &&& named::<A>(tail.feed_forward.linear1, store, name + ".linear1"@)
    &&& named::<A>(tail.feed_forward.linear2, store, name + ".linear2"@)
    &&& tail.gamma1@ == parameter::<A>(store, name + ".gamma_1.scale"@)
    &&& tail.gamma2@ == parameter::<A>(store, name + ".gamma_2.scale"@)
}

/// Whether a layer is made of the tensors of this name: it attends to its own
/// branch if `index` is even, and across if it is odd.
pub open spec fn layer_named<A: Arithmetic>(
    layer: Layer<A>,
    store: Store,
    name: Seq<char>,
    index: int,
) -> bool {
    match layer {
        Layer::Classic(layer) => {
            &&& index % 2 == 0
            &&& named::<A>(layer.norm1, store, name + ".norm1"@)
            &&& named::<A>(layer.norm2, store, name + ".norm2"@)
            &&& named::<A>(layer.norm_out, store, name + ".norm_out"@)
            &&& attention_named::<A>(layer.attention, store, name + ".self_attn"@)
            &&& tail_named::<A>(layer.tail, store, name)
        },
        Layer::Cross(layer) => {
            &&& index % 2 == 1
            &&& named::<A>(layer.norm1, store, name + ".norm1"@)
            &&& named::<A>(layer.norm2, store, name + ".norm2"@)
            &&& named::<A>(layer.norm3, store, name + ".norm3"@)
            &&& named::<A>(layer.norm_out, store, name + ".norm_out"@)
            &&& attention_named::<A>(layer.attention, store, name + ".cross_attn"@)
            &&& tail_named::<A>(layer.tail, store, name)
        },
    }
}

/// Every layer of the transformer is made of the tensors of its own name and
/// number, the frequency branch's and the time branch's.
pub proof fn law_layers_are_loaded_by_name<A: Arithmetic>(
    model: HtDemucs<A>,
    store: Store,
    i: int,
)
    requires
        model.is_from(store),
        0 <= i < 5,
    ensures
        layer_named::<A>(
            model.transformer.layers@[i],
            store,
            "crosstransformer"@ + ".layers."@ + decimal(i as nat),
            i,
        ),
        layer_named::<A>(
            model.transformer.layers_t@[i],
            store,
            "crosstransformer"@ + ".layers_t."@ + decimal(i as nat),
            i,
        ),
{
    reveal(HtDemucs::is_from);
    let (layer, layer_t) = (model.transformer.layers@[i], model.transformer.layers_t@[i]);
}

} // verus!
