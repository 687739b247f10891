//! The names that a whole network is loaded by, and whether they can be looked
//! up in a bundle.

use vstd::prelude::*;

use crate::arithmetic::Arithmetic;
use crate::dconv::{layer_name, DConv, DConvLayer};
use crate::decoder::DecLayer;
use crate::encoder::{EncLayer, FrequencyEmbedding};
use crate::layers::{AttentionWeights, ClassicLayer, CrossLayer, FeedForward, Layer, Tail};
use crate::model::{level_need, level_needs, ChannelConv, HtDemucs};
use crate::parameters::{met, readable, reads, weight_need, Affine, Need};
use crate::text::{joined, numbered};
use crate::transformer::{layers_needs, CrossTransformer};
use crate::weights::Weights;

verus! {

/// A name to look up, and how many extents of its tensor are looked at.
struct Ask {
    name: String,
    axes: usize,
}

/// Whether these names are those of these needs, in order.
spec fn names(list: Seq<Ask>, needs: Seq<Need>) -> bool {
    &&& list.len() == needs.len()
    &&& forall|i: int|
        0 <= i < list.len() ==> (#[trigger] list[i]).name@ == needs[i].name && list[i].axes
            == needs[i].axes
}

/// Whether a list was extended by the names of these needs.
spec fn gained(before: Seq<Ask>, after: Seq<Ask>, needs: Seq<Need>) -> bool {
    exists|more: Seq<Ask>| #[trigger] names(more, needs) && after == before + more
}

proof fn lemma_gained(
    list: Seq<Ask>,
    longer: Seq<Ask>,
    longest: Seq<Ask>,
    a: Seq<Need>,
    b: Seq<Need>,
)
    requires
        gained(list, longer, a),
        gained(longer, longest, b),
    ensures
        gained(list, longest, a + b),
{
    let first = choose|more: Seq<Ask>| #[trigger] names(more, a) && longer == list + more;
    let second = choose|more: Seq<Ask>| #[trigger] names(more, b) && longest == longer + more;
    assert(names(first + second, a + b));
    assert(longest =~= list + (first + second));
}

fn ask(list: &mut Vec<Ask>, prefix: &str, suffix: &str, axes: usize)
    ensures
        forall|need: Need|
            #![trigger gained(old(list)@, final(list)@, seq![need])]
            need.name == prefix@ + suffix@ && need.axes == axes ==> gained(
                old(list)@,
                final(list)@,
                seq![need],
            ),
{
    let entry = Ask { name: joined(prefix, suffix), axes };
    let ghost more = seq![entry];
    list.push(entry);
    proof {
        assert(list@ =~= old(list)@ + more);
        assert forall|need: Need|
            need.name == prefix@ + suffix@ && need.axes == axes implies #[trigger] gained(
            old(list)@,
            list@,
            seq![need],
        ) by {
            assert(names(more, seq![need]));
        }
    }
}

fn ask_affine<A: Arithmetic>(list: &mut Vec<Ask>, prefix: &str)
    ensures
        gained(old(list)@, final(list)@, Affine::<A>::needs(prefix@)),
        gained(old(list)@, final(list)@, ChannelConv::<A>::needs(prefix@)),
{
    ask(list, prefix, ".weight", 0);
    let ghost halfway = list@;
    ask(list, prefix, ".bias", 0);
    proof {
        let weight = weight_need(prefix@ + ".weight"@);
        let bias = weight_need(prefix@ + ".bias"@);
        assert(gained(old(list)@, halfway, seq![weight]));
        assert(gained(halfway, list@, seq![bias]));
        lemma_gained(old(list)@, halfway, list@, seq![weight], seq![bias]);
        let more = choose|more: Seq<Ask>| #[trigger]
            names(more, Affine::<A>::needs(prefix@)) && list@ == old(list)@ + more;
        assert(names(more, ChannelConv::<A>::needs(prefix@)));
    }
}

fn ask_dconv_layer<A: Arithmetic>(list: &mut Vec<Ask>, prefix: &str)
    ensures
        gained(old(list)@, final(list)@, DConvLayer::<A>::needs(prefix@)),
{
    let name0 = joined(prefix, ".0");
    let name1 = joined(prefix, ".1");
    let name3 = joined(prefix, ".3");
    let name4 = joined(prefix, ".4");
    let ghost start = list@;
    ask_affine::<A>(list, name0.as_str());
    let ghost after_1 = list@;
    ask_affine::<A>(list, name1.as_str());
    let ghost after_2 = list@;
    ask_affine::<A>(list, name3.as_str());
    let ghost after_3 = list@;
    ask_affine::<A>(list, name4.as_str());
    let ghost after_4 = list@;
    ask(list, prefix, ".6.scale", 0);
    proof {
        let a = Affine::<A>::needs(name0@);
        let b = Affine::<A>::needs(name1@);
        let c = Affine::<A>::needs(name3@);
        let d = Affine::<A>::needs(name4@);
        let e = seq![weight_need(prefix@ + ".6.scale"@)];
        assert(gained(after_4, list@, e));
        lemma_gained(start, after_1, after_2, a, b);
        lemma_gained(start, after_2, after_3, a + b, c);
        lemma_gained(start, after_3, after_4, a + b + c, d);
        lemma_gained(start, after_4, list@, a + b + c + d, e);
    }
}

fn ask_dconv<A: Arithmetic>(list: &mut Vec<Ask>, prefix: &str, depth: usize)
    ensures
        gained(old(list)@, final(list)@, DConv::<A>::needs(prefix@, depth as nat)),
{
    let ghost start = list@;
    let base = joined(prefix, ".layers.");
    let mut index: usize = 0;
    proof {
        assert(names(Seq::empty(), DConv::<A>::needs(prefix@, 0)));
        assert(start =~= start + Seq::<Ask>::empty());
    }
    while index < depth
        invariant
            index <= depth,
            base@ == prefix@ + ".layers."@,
            gained(start, list@, DConv::<A>::needs(prefix@, index as nat)),
        decreases depth - index,
    {
        let name = numbered(base.as_str(), index);
        let ghost before = list@;
        ask_dconv_layer::<A>(list, name.as_str());
        proof {
            let a = DConv::<A>::needs(prefix@, index as nat);
            let b = DConvLayer::<A>::needs(layer_name(prefix@, index as nat));
            lemma_gained(start, before, list@, a, b);
            assert(DConv::<A>::needs(prefix@, (index + 1) as nat) == a + b);
        }
        index = index + 1;
    }
}

fn ask_encoder<A: Arithmetic>(list: &mut Vec<Ask>, prefix: &str)
    ensures
        gained(old(list)@, final(list)@, EncLayer::<A>::needs(prefix@, 2)),
{
    let conv = joined(prefix, ".conv");
    let dconv = joined(prefix, ".dconv");
    let rewrite = joined(prefix, ".rewrite");
    let ghost start = list@;
    ask_affine::<A>(list, conv.as_str());
    let ghost after_1 = list@;
    ask_dconv::<A>(list, dconv.as_str(), 2);
    let ghost after_2 = list@;
    ask_affine::<A>(list, rewrite.as_str());
    proof {
        let a = Affine::<A>::needs(conv@);
        let b = DConv::<A>::needs(dconv@, 2);
        let c = Affine::<A>::needs(rewrite@);
        lemma_gained(start, after_1, after_2, a, b);
        lemma_gained(start, after_2, list@, a + b, c);
    }
}

fn ask_decoder<A: Arithmetic>(list: &mut Vec<Ask>, prefix: &str)
    ensures
        gained(old(list)@, final(list)@, DecLayer::<A>::needs(prefix@, 2)),
{
    let conv = joined(prefix, ".conv_tr");
    let dconv = joined(prefix, ".dconv");
    let rewrite = joined(prefix, ".rewrite");
    let ghost start = list@;
    ask_affine::<A>(list, conv.as_str());
    let ghost after_1 = list@;
    ask_dconv::<A>(list, dconv.as_str(), 2);
    let ghost after_2 = list@;
    ask_affine::<A>(list, rewrite.as_str());
    proof {
        let a = Affine::<A>::needs(conv@);
        let b = DConv::<A>::needs(dconv@, 2);
        let c = Affine::<A>::needs(rewrite@);
        lemma_gained(start, after_1, after_2, a, b);
        lemma_gained(start, after_2, list@, a + b, c);
    }
}

fn ask_attention<A: Arithmetic>(list: &mut Vec<Ask>, prefix: &str)
    ensures
        gained(old(list)@, final(list)@, AttentionWeights::<A>::needs(prefix@)),
{
    let out_proj = joined(prefix, ".out_proj");
    let ghost start = list@;
    ask(list, prefix, ".in_proj_weight", 0);
    let ghost after_1 = list@;
    ask(list, prefix, ".in_proj_bias", 0);
    let ghost after_2 = list@;
    ask_affine::<A>(list, out_proj.as_str());
    proof {
        let a = seq![weight_need(prefix@ + ".in_proj_weight"@)];
        let b = seq![weight_need(prefix@ + ".in_proj_bias"@)];
        let c = Affine::<A>::needs(out_proj@);
        assert(gained(start, after_1, a));
        assert(gained(after_1, after_2, b));
        lemma_gained(start, after_1, after_2, a, b);
        lemma_gained(start, after_2, list@, a + b, c);
    }
}

fn ask_feed_forward<A: Arithmetic>(list: &mut Vec<Ask>, prefix: &str)
    ensures
        gained(old(list)@, final(list)@, FeedForward::<A>::needs(prefix@)),
{
    let name1 = joined(prefix, ".linear1");
    let name2 = joined(prefix, ".linear2");
    let ghost start = list@;
    ask_affine::<A>(list, name1.as_str());
    let ghost after_1 = list@;
    ask_affine::<A>(list, name2.as_str());
    proof {
        let a = Affine::<A>::needs(name1@);
        let b = Affine::<A>::needs(name2@);
        lemma_gained(start, after_1, list@, a, b);
    }
}

fn ask_tail<A: Arithmetic>(list: &mut Vec<Ask>, prefix: &str)
    ensures
        gained(old(list)@, final(list)@, Tail::<A>::needs(prefix@)),
{
    let ghost start = list@;
    ask_feed_forward::<A>(list, prefix);
    let ghost after_1 = list@;
    ask(list, prefix, ".gamma_1.scale", 0);
    let ghost after_2 = list@;
    ask(list, prefix, ".gamma_2.scale", 0);
    proof {
        let a = FeedForward::<A>::needs(prefix@);
        let b = seq![weight_need(prefix@ + ".gamma_1.scale"@)];
        let c = seq![weight_need(prefix@ + ".gamma_2.scale"@)];
        assert(gained(after_1, after_2, b));
        assert(gained(after_2, list@, c));
        lemma_gained(start, after_1, after_2, a, b);
        lemma_gained(start, after_2, list@, a + b, c);
    }
}

fn ask_classic<A: Arithmetic>(list: &mut Vec<Ask>, prefix: &str)
    ensures
        gained(old(list)@, final(list)@, ClassicLayer::<A>::needs(prefix@)),
{
    let norm1 = joined(prefix, ".norm1");
    let norm2 = joined(prefix, ".norm2");
    let norm_out = joined(prefix, ".norm_out");
    let attention = joined(prefix, ".self_attn");
    let ghost start = list@;
    ask_tail::<A>(list, prefix);
    let ghost after_1 = list@;
    ask_affine::<A>(list, norm1.as_str());
    let ghost after_2 = list@;
    ask_affine::<A>(list, norm2.as_str());
    let ghost after_3 = list@;
    ask_affine::<A>(list, norm_out.as_str());
    let ghost after_4 = list@;
    ask_attention::<A>(list, attention.as_str());
    proof {
        let a = Tail::<A>::needs(prefix@);
        let b = Affine::<A>::needs(norm1@);
        let c = Affine::<A>::needs(norm2@);
        let d = Affine::<A>::needs(norm_out@);
        let e = AttentionWeights::<A>::needs(attention@);
        lemma_gained(start, after_1, after_2, a, b);
        lemma_gained(start, after_2, after_3, a + b, c);
        lemma_gained(start, after_3, after_4, a + b + c, d);
        lemma_gained(start, after_4, list@, a + b + c + d, e);
    }
}

fn ask_cross<A: Arithmetic>(list: &mut Vec<Ask>, prefix: &str)
    ensures
        gained(old(list)@, final(list)@, CrossLayer::<A>::needs(prefix@)),
{
    let norm1 = joined(prefix, ".norm1");
    let norm2 = joined(prefix, ".norm2");
    let norm3 = joined(prefix, ".norm3");
    let norm_out = joined(prefix, ".norm_out");
    let attention = joined(prefix, ".cross_attn");
    let ghost start = list@;
    ask_tail::<A>(list, prefix);
    let ghost after_1 = list@;
    ask_affine::<A>(list, norm1.as_str());
    let ghost after_2 = list@;
    ask_affine::<A>(list, norm2.as_str());
    let ghost after_3 = list@;
    ask_affine::<A>(list, norm3.as_str());
    let ghost after_4 = list@;
    ask_affine::<A>(list, norm_out.as_str());
    let ghost after_5 = list@;
    ask_attention::<A>(list, attention.as_str());
    proof {
        let a = Tail::<A>::needs(prefix@);
        let b = Affine::<A>::needs(norm1@);
        let c = Affine::<A>::needs(norm2@);
        let d = Affine::<A>::needs(norm3@);
        let e = Affine::<A>::needs(norm_out@);
        let f = AttentionWeights::<A>::needs(attention@);
        lemma_gained(start, after_1, after_2, a, b);
        lemma_gained(start, after_2, after_3, a + b, c);
        lemma_gained(start, after_3, after_4, a + b + c, d);
        lemma_gained(start, after_4, after_5, a + b + c + d, e);
        lemma_gained(start, after_5, list@, a + b + c + d + e, f);
    }
}

fn ask_layer<A: Arithmetic>(list: &mut Vec<Ask>, prefix: &str, classic: bool)
    ensures
        gained(old(list)@, final(list)@, Layer::<A>::needs(prefix@, classic)),
{
    if classic {
        ask_classic::<A>(list, prefix);
    } else {
        ask_cross::<A>(list, prefix);
    }
}

fn ask_layers<A: Arithmetic>(list: &mut Vec<Ask>, prefix: &str)
    ensures
        gained(old(list)@, final(list)@, layers_needs::<A>(prefix@, 5)),
{
    let ghost start = list@;
    let base = joined(prefix, ".layers.");
    let base_t = joined(prefix, ".layers_t.");
    let mut index: usize = 0;
    proof {
        assert(names(Seq::empty(), layers_needs::<A>(prefix@, 0)));
        assert(start =~= start + Seq::<Ask>::empty());
    }
    while index < 5
        invariant
            index <= 5,
            base@ == prefix@ + ".layers."@,
            base_t@ == prefix@ + ".layers_t."@,
            gained(start, list@, layers_needs::<A>(prefix@, index as nat)),
        decreases 5 - index,
    {
        let classic = index % 2 == 0;
        let name = numbered(base.as_str(), index);
        let name_t = numbered(base_t.as_str(), index);
        let ghost before = list@;
        ask_layer::<A>(list, name.as_str(), classic);
        let ghost halfway = list@;
        ask_layer::<A>(list, name_t.as_str(), classic);
        proof {
            let a = layers_needs::<A>(prefix@, index as nat);
            let b = Layer::<A>::needs(name@, classic);
            let c = Layer::<A>::needs(name_t@, classic);
            lemma_gained(start, before, halfway, a, b);
            lemma_gained(start, halfway, list@, a + b, c);
            assert(layers_needs::<A>(prefix@, (index + 1) as nat) == a + b + c);
        }
        index = index + 1;
    }
}

fn ask_transformer<A: Arithmetic>(list: &mut Vec<Ask>, prefix: &str)
    ensures
        gained(old(list)@, final(list)@, CrossTransformer::<A>::needs(prefix@)),
{
    let norm_in = joined(prefix, ".norm_in");
    let norm_in_t = joined(prefix, ".norm_in_t");
    let ghost start = list@;
    ask(list, prefix, ".norm_in.weight", 1);
    let ghost after_1 = list@;
    ask_layers::<A>(list, prefix);
    let ghost after_2 = list@;
    ask_affine::<A>(list, norm_in.as_str());
    let ghost after_3 = list@;
    ask_affine::<A>(list, norm_in_t.as_str());
    proof {
        let a = seq![CrossTransformer::<A>::width_need(prefix@)];
        let b = layers_needs::<A>(prefix@, 5);
        let c = Affine::<A>::needs(norm_in@);
        let d = Affine::<A>::needs(norm_in_t@);
        assert(gained(start, after_1, a));
        lemma_gained(start, after_1, after_2, a, b);
        lemma_gained(start, after_2, after_3, a + b, c);
        lemma_gained(start, after_3, list@, a + b + c, d);
    }
}

fn ask_level<A: Arithmetic>(list: &mut Vec<Ask>, index: usize)
    ensures
        gained(old(list)@, final(list)@, level_need::<A>(index as nat)),
{
    let encoder = numbered("encoder.", index);
    let tencoder = numbered("tencoder.", index);
    let decoder = numbered("decoder.", index);
    let tdecoder = numbered("tdecoder.", index);
    let ghost start = list@;
    ask_encoder::<A>(list, encoder.as_str());
    let ghost after_1 = list@;
    ask_encoder::<A>(list, tencoder.as_str());
    let ghost after_2 = list@;
    ask_decoder::<A>(list, decoder.as_str());
    let ghost after_3 = list@;
    ask_decoder::<A>(list, tdecoder.as_str());
    proof {
        let a = EncLayer::<A>::needs(encoder@, 2);
        let b = EncLayer::<A>::needs(tencoder@, 2);
        let c = DecLayer::<A>::needs(decoder@, 2);
        let d = DecLayer::<A>::needs(tdecoder@, 2);
        lemma_gained(start, after_1, after_2, a, b);
        lemma_gained(start, after_2, after_3, a + b, c);
        lemma_gained(start, after_3, list@, a + b + c, d);
    }
}

fn ask_levels<A: Arithmetic>(list: &mut Vec<Ask>)
    ensures
        gained(old(list)@, final(list)@, level_needs::<A>(4)),
{
    let ghost start = list@;
    let mut index: usize = 0;
    proof {
        assert(names(Seq::empty(), level_needs::<A>(0)));
        assert(start =~= start + Seq::<Ask>::empty());
    }
    while index < 4
        invariant
            index <= 4,
            gained(start, list@, level_needs::<A>(index as nat)),
        decreases 4 - index,
    {
        let ghost before = list@;
        ask_level::<A>(list, index);
        proof {
            let a = level_needs::<A>(index as nat);
            let b = level_need::<A>(index as nat);
            lemma_gained(start, before, list@, a, b);
            assert(level_needs::<A>((index + 1) as nat) == a + b);
        }
        index = index + 1;
    }
}

fn ask_network<A: Arithmetic>(list: &mut Vec<Ask>)
    ensures
        gained(old(list)@, final(list)@, HtDemucs::<A>::needs()),
{
    proof {
        reveal(HtDemucs::needs);
        reveal_strlit("");
    }
    let ghost start = list@;
    ask_levels::<A>(list);
    let ghost after_1 = list@;
    ask(list, "freq_emb.embedding.weight", "", 2);
    let ghost after_2 = list@;
    ask_affine::<A>(list, "channel_upsampler");
    let ghost after_3 = list@;
    ask_affine::<A>(list, "channel_upsampler_t");
    let ghost after_4 = list@;
    ask_affine::<A>(list, "channel_downsampler");
    let ghost after_5 = list@;
    ask_affine::<A>(list, "channel_downsampler_t");
    let ghost after_6 = list@;
    ask_transformer::<A>(list, "crosstransformer");
    proof {
        let a = level_needs::<A>(4);
        let b = FrequencyEmbedding::<A>::needs();
        assert("freq_emb.embedding.weight"@ + ""@ =~= "freq_emb.embedding.weight"@);
        assert(gained(after_1, after_2, seq![b[0]]));
        assert(seq![b[0]] =~= b);
        let c = ChannelConv::<A>::needs("channel_upsampler"@);
        let d = ChannelConv::<A>::needs("channel_upsampler_t"@);
        let e = ChannelConv::<A>::needs("channel_downsampler"@);
        let f = ChannelConv::<A>::needs("channel_downsampler_t"@);
        let g = CrossTransformer::<A>::needs("crosstransformer"@);
        lemma_gained(start, after_1, after_2, a, b);
        lemma_gained(start, after_2, after_3, a + b, c);
        lemma_gained(start, after_3, after_4, a + b + c, d);
        lemma_gained(start, after_4, after_5, a + b + c + d, e);
        lemma_gained(start, after_5, after_6, a + b + c + d + e, f);
        lemma_gained(start, after_6, list@, a + b + c + d + e + f, g);
    }
}

/// Looks the names up in turn, until one is not there.
fn can_look_up(weights: &Weights, list: &[Ask], Ghost(needs): Ghost<Seq<Need>>) -> (can: bool)
    requires
        weights.wf(),
        names(list@, needs),
    ensures
        can == readable(weights@, needs),
{
    let count = list.len();
    let mut index: usize = 0;
    while index < count
        invariant
            weights.wf(),
            count == list@.len(),
            names(list@, needs),
            index <= count,
            met(weights@, needs.take(index as int)),
            forall|i: int| 0 <= i < index ==> reads(weights@, #[trigger] needs[i]),
        decreases count - index,
    {
        let name = list[index].name.as_str();
        assert(name@ == needs[index as int].name);
        if !weights.can_read(name) {
            assert(!reads(weights@, needs[index as int]));
            return false;
        }
        match weights.tensor(name) {
            Some(tensor) => if tensor.shape().len() < list[index].axes {
                assert(!reads(weights@, needs[index as int]));
                return false;
            },
            None => {
                proof {
                    assert forall|i: int|
                        0 <= i < needs.len() && met(weights@, needs.take(i)) implies reads(
                        weights@,
                        #[trigger] needs[i],
                    ) by {
                        if i > index {
                            assert(needs.take(i)[index as int] == needs[index as int]);
                        }
                    }
                }
                return true;
            },
        }
        proof {
            let longer = needs.take(index + 1);
            assert forall|i: int| 0 <= i < longer.len() implies weights@.find(
                (#[trigger] longer[i]).name,
            ) is Some by {
                if i < index {
                    assert(needs.take(index as int)[i] == longer[i]);
                }
            }
        }
        index = index + 1;
    }
    true
}

impl<A: Arithmetic> HtDemucs<A> {
    /// Whether the network can be looked up in a bundle without reading past
    /// an axis or an address.
    pub fn can_load(weights: &Weights) -> (can: bool)
        requires
            weights.wf(),
        ensures
            can == readable(weights@, Self::needs()),
    {
        let mut list: Vec<Ask> = Vec::new();
        let ghost start = list@;
        ask_network::<A>(&mut list);
        proof {
            let more = choose|more: Seq<Ask>| #[trigger]
                names(more, Self::needs()) && list@ == start + more;
            assert(list@ =~= more);
        }
        can_look_up(weights, list.as_slice(), Ghost(Self::needs()))
    }
}

} // verus!
