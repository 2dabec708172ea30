//! What calls of the library return: the laws of the layers, of the names of tensors and of model
//! sources, for the functions that are called.
use crate::gguf::{Content, MissingTensor, TensorInfo};
use crate::graph::{Node, Pairwise, Projection, SameShape, Slot};
use crate::layer_laws;
use crate::layer_laws::{dense_norm, fed_forward, norms_keep_length, summed_row};
use crate::layout;
use crate::layout::{resolve_model_source, SourceChoice};
use crate::loading;
use crate::loading::{LayerWeights, LoadError};
use crate::meaning::{line, value, within, World};
use crate::menu;
use crate::menu::{GgufMenu, MenuAction, MenuKey, TooManyOptions};
use crate::name_laws;
use crate::name_laws::held;
use crate::ops;
use crate::pass::{ForwardPass, LayerPass, Step};
use crate::prompt::{validate_args, Args, ArgsError};
use crate::quantized_qwen3_5::{
    numbers_of, LayerTensorNames, ModelWeights, QuantizedArchitecture,
};
use crate::qwen3_5;
use crate::qwen3_5::{MixerState, ModelForCausalLM, Qwen3_5DecoderLayer};
use crate::repo;
use crate::repo::{tokenizer_model_candidates, ModelSource};
use crate::text;
use std::rc::Rc;
use vstd::prelude::*;

verus! {

/// A pass through a layer of the quantized model, of either kind, gives its input, with what the
/// mixing part makes of the normalised input added, and the feed-forward part of the normalised sum
/// added to that.
pub proof fn pass_through_a_layer_adds_to_its_input<E>(
    w: &mut LayerWeights,
    x: Rc<Node>,
    step: Step,
    r: LayerPass,
    env: World<E>,
    idx: Seq<int>,
)
    requires
        call_ensures(LayerWeights::forward, (w, &x, step), r),
        value(&x, env).shape.len() > 0,
        (env.arithmetic.width)(Projection::Down) == value(&x, env).shape.last(),
        (env.arithmetic.width)(Projection::Up) == (env.arithmetic.width)(Projection::Gate),
        norms_keep_length(env.arithmetic),
        within(value(&x, env).shape, idx),
    ensures
        ({
            let a = env.arithmetic;
            let input = value(&x, env);
            let eps = match *old(w) {
                LayerWeights::FullAttention(p) => p.norm_eps,
                LayerWeights::StateSpace(p) => p.norm_eps,
            };
            let h = ops::rms_norm(Slot::MixerNorm, eps, &x);
            let mixer = match *old(w) {
                LayerWeights::FullAttention(p) => value(&p.output(h, step), env),
                LayerWeights::StateSpace(p) => value(&p.output(h, step), env),
            };
            let weight = line((env.leaf)(Slot::MlpNorm), 0, seq![0]);
            &&& value(&r.output, env).shape == input.shape
            &&& (value(&r.output, env).at)(idx) == (a.pair)(
                Pairwise::Add,
                (a.pair)(Pairwise::Add, (input.at)(idx), (mixer.at)(idx)),
                fed_forward(
                    a,
                    SameShape::Silu,
                    (a.rms_norm)(eps, weight, summed_row(input, mixer, idx, a)),
                )[idx[input.shape.len() - 1]],
            )
        }),
{
    layer_laws::layer_adds_to_its_input(*old(w), x, step, env);
}

/// The same of the dense model.
pub proof fn pass_through_a_dense_layer_adds_to_its_input<E>(
    w: &mut Qwen3_5DecoderLayer,
    x: Rc<Node>,
    step: Step,
    r: LayerPass,
    env: World<E>,
    idx: Seq<int>,
)
    requires
        call_ensures(Qwen3_5DecoderLayer::forward, (w, &x, step), r),
        value(&x, env).shape.len() > 0,
        (env.arithmetic.width)(Projection::Down) == value(&x, env).shape.last(),
        (env.arithmetic.width)(Projection::Up) == (env.arithmetic.width)(Projection::Gate),
        (env.leaf)(Slot::MlpNorm).shape == seq![value(&x, env).shape.last()],
        within(value(&x, env).shape, idx),
    ensures
        ({
            let a = env.arithmetic;
            let input = value(&x, env);
            let h = qwen3_5::normed(Slot::MixerNorm, old(w).input_layernorm.eps, &x);
            let mixer = match old(w).token_mixer@ {
                MixerState::FullAttention(p) => value(&p.output(h, step), env),
                MixerState::LinearAttention { dims, primed } => value(
                    &dims.output(h, step, primed && step.len == 1),
                    env,
                ),
            };
            let weight = (env.leaf)(Slot::MlpNorm);
            &&& value(&r.output, env).shape == input.shape
            &&& (value(&r.output, env).at)(idx) == (a.pair)(
                Pairwise::Add,
                (a.pair)(Pairwise::Add, (input.at)(idx), (mixer.at)(idx)),
                fed_forward(
                    a,
                    SameShape::HiddenAct,
                    dense_norm(
                        a,
                        old(w).post_attention_layernorm.eps,
                        line(weight, 0, seq![0]),
                        weight.format,
                        summed_row(input, mixer, idx, a),
                        input.format,
                    ),
                )[idx[input.shape.len() - 1]],
            )
        }),
{
    layer_laws::dense_layer_adds_to_its_input(old(w)@, x, step, env);
}

/// The names that are detected for a layer: queries, keys, values and outputs have their own tensors
/// where the file holds them, and an error says that a tensor is missing.
pub proof fn detected_projections_are_their_own(
    tensors: Vec<TensorInfo>,
    layer: usize,
    r: Result<LayerTensorNames, MissingTensor>,
)
    requires
        call_ensures(LayerTensorNames::detect, (&tensors, layer), r),
    ensures
        ({
            let p = "blk."@ + text::decimal(layer as nat);
            let own = |suffix: Seq<char>| held(tensors@, p + suffix);
            r matches Ok(l) ==> {
                &&& l.layer_idx == layer
                &&& own(".attn_q.weight"@) ==> l.q_proj@ == p + ".attn_q.weight"@
                &&& own(".attn_k.weight"@) ==> l.k_proj@ == p + ".attn_k.weight"@
                &&& own(".attn_v.weight"@) ==> l.v_proj@ == p + ".attn_v.weight"@
                &&& own(".attn_output.weight"@) ==> l.o_proj@ == p + ".attn_output.weight"@
                &&& l.ffn_gate@ == p + ".ffn_gate.weight"@
                &&& l.ffn_up@ == p + ".ffn_up.weight"@
                &&& l.ffn_down@ == p + ".ffn_down.weight"@
            }
        }),
{
    if let Ok(l) = r {
        name_laws::every_part_has_its_own_tensor(l, tensors@, layer as nat);
    }
}

/// Where a repository lists the preferred file and a GGUF file, the preferred file is the source,
/// whether or not a quantized model was asked for. Asked for one, the source is never the dense
/// weights.
pub proof fn preferred_file_is_the_source(
    listing: Vec<String>,
    gguf_file: &str,
    quantized: bool,
    r: SourceChoice,
    i: int,
    j: int,
)
    requires
        call_ensures(resolve_model_source, (&listing, gguf_file, quantized), r),
    ensures
        0 <= i < listing@.len() && 0 <= j < listing@.len() && listing@[i]@ == gguf_file@
            && ".gguf"@.is_suffix_of(listing@[j]@) ==> (r matches SourceChoice::Gguf(name) && name@
            == gguf_file@),
        quantized ==> !(r is Dense),
{
    let names = text::views(listing@);
    if 0 <= i < listing@.len() && 0 <= j < listing@.len() && listing@[i]@ == gguf_file@
        && ".gguf"@.is_suffix_of(listing@[j]@) {
        assert(names[i] == gguf_file@);
        assert(names[j] == listing@[j]@);
        assert(names.contains(gguf_file@));
        assert(names.contains(names[j]));
        layout::preferred_file_is_loaded(names, gguf_file@, quantized, names[j]);
    }
    layout::asking_for_quantized_only_rules_out_dense(names, gguf_file@);
}

/// The scores that a pass of the quantized model gives come from the last position alone: its row,
/// normalised with the setting of the model, through the map to the vocabulary.
pub proof fn quantized_scores_come_from_the_last_position<E>(
    m: &mut ModelWeights,
    batch: usize,
    len: usize,
    offset: usize,
    r: ForwardPass,
    env: World<E>,
    i: int,
    token: int,
)
    requires
        call_ensures(ModelWeights::forward, (m, batch, len, offset), r),
        len >= 1,
        norms_keep_length(env.arithmetic),
        (env.leaf)(Slot::Input).shape.len() == 3,
        (env.leaf)(Slot::Input).shape[1] == len,
        0 <= i < (env.leaf)(Slot::Input).shape[0],
        0 <= token < (env.arithmetic.width)(Projection::Head),
    ensures
        ({
            let a = env.arithmetic;
            let x = (env.leaf)(Slot::Input);
            let row = Seq::new(x.shape[2], |k: int| (x.at)(seq![i, len - 1, k]));
            &&& (value(&r.last, env).at)(seq![i, token]) == (a.linear)(
                Projection::Head,
                (a.rms_norm)(
                    old(m).summary.rms_norm_eps,
                    line((env.leaf)(Slot::FinalNorm), 0, seq![0]),
                    row,
                ),
            )[token]
            &&& r.layers@.len() == old(m).layers@.len()
            &&& r.mask is Some <==> len > 1
        }),
{
    layer_laws::scores_come_from_the_last_position(
        r,
        old(m).layers@,
        old(m).summary.rms_norm_eps,
        Step { batch, len, offset, masked: len > 1 },
        env,
        i,
        token,
    );
}

/// The same of the dense model.
pub proof fn dense_scores_come_from_the_last_position<E>(
    m: &mut ModelForCausalLM,
    batch: usize,
    len: usize,
    offset: usize,
    r: ForwardPass,
    env: World<E>,
    i: int,
    token: int,
)
    requires
        call_ensures(ModelForCausalLM::forward, (m, batch, len, offset), r),
        len >= 1,
        (env.leaf)(Slot::Input).shape.len() == 3,
        (env.leaf)(Slot::Input).shape[1] == len,
        (env.leaf)(Slot::FinalNorm).shape == seq![(env.leaf)(Slot::Input).shape[2]],
        0 <= i < (env.leaf)(Slot::Input).shape[0],
        0 <= token < (env.arithmetic.width)(Projection::Head),
    ensures
        ({
            let a = env.arithmetic;
            let x = (env.leaf)(Slot::Input);
            let v = (env.leaf)(Slot::FinalNorm);
            let row = Seq::new(x.shape[2], |k: int| (x.at)(seq![i, len - 1, k]));
            &&& (value(&r.last, env).at)(seq![i, 0, token]) == (a.linear)(
                Projection::Head,
                dense_norm(
                    a,
                    old(m).base_model.norm.eps,
                    line(v, 0, seq![0]),
                    v.format,
                    row,
                    x.format,
                ),
            )[token]
            &&& r.layers@.len() == old(m).base_model.layers@.len()
            &&& r.mask is Some <==> len > 1
        }),
{
    layer_laws::dense_scores_come_from_the_last_position(
        len,
        old(m).base_model.norm.eps,
        env,
        i,
        token,
    );
}

/// A menu of files: it offers the files that are not vision projectors, in their order, and the key
/// of a position chooses the file of this position.
pub proof fn menu_chooses_among_its_files(
    files: Vec<String>,
    made: Result<GgufMenu, TooManyOptions>,
    i: int,
    r: MenuAction,
)
    requires
        call_ensures(GgufMenu::new, (&files,), made),
        forall|k: int|
            0 <= k < files@.len() ==> !"mmproj-"@.is_prefix_of(#[trigger] files@[k]@),
        files@.len() <= 36,
        0 <= i < files@.len(),
        made matches Ok(menu) ==> call_ensures(
            GgufMenu::on_key,
            (&menu, MenuKey::Char(menu::menu_keys()[i])),
            r,
        ),
    ensures
        made matches Ok(menu) && menu.options@.len() == files@.len() && menu.options@[i]@
            == files@[i]@ && r == MenuAction::Select(i as usize),
{
    let names = text::views(files@);
    lemma_all_are_offered(names);
    menu::keys_are_digits_and_then_letters(i);
    if let Ok(menu) = made {
        assert(text::views(menu.options@) == names);
        assert(text::views(menu.options@)[i] == names[i]);
        menu::every_option_has_a_key(menu, i);
    }
}

proof fn lemma_all_are_offered(names: Seq<Seq<char>>)
    requires
        forall|k: int| 0 <= k < names.len() ==> !"mmproj-"@.is_prefix_of(#[trigger] names[k]),
    ensures
        menu::text_models(names) == names,
        menu::offered(names) == names,
    decreases names.len(),
{
    reveal(Seq::filter);
    if names.len() > 0 {
        let rest = names.drop_last();
        assert forall|k: int| 0 <= k < rest.len() implies !"mmproj-"@.is_prefix_of(
            #[trigger] rest[k],
        ) by {
            assert(rest[k] == names[k]);
        }
        lemma_all_are_offered(rest);
        assert(names[names.len() - 1] == names.last());
        assert(names =~= rest.push(names.last()));
    } else {
        assert(menu::text_models(names) =~= names);
    }
}

/// A file that is loaded gives a model of the architecture that can be run, with as many layers as
/// the file counts, each from the tensors with its number, and nothing kept in any of them.
pub proof fn loaded_model_has_its_layers(
    content: Content,
    r: Result<ModelWeights, LoadError>,
    i: int,
)
    requires
        call_ensures(ModelWeights::from_gguf, (&content,), r),
    ensures
        r matches Ok(m) ==> {
            &&& m.summary.architecture == QuantizedArchitecture::Qwen3_5
            &&& m.layers@.len() == m.summary.num_layers
            &&& 0 <= i < m.layers@.len() ==> m.names.layers@[i].prefix@ == "blk."@ + text::decimal(
                i as nat,
            ) && m.layers@[i] == loading::layer_of(
                content.tensors@,
                m.names.layers@[i].facts(),
                m.summary.numbers(),
            ) && m.layers@[i].cleared() == m.layers@[i]
        },
{
    if let Ok(m) = r {
        name_laws::loading_goes_by_the_summary(m.summary, content.metadata@);
        name_laws::model_is_loaded_where_nothing_is_wrong(
            content.tensors@,
            numbers_of(content.metadata@),
        );
        if 0 <= i < m.layers@.len() {
            name_laws::layers_are_loaded_in_their_order(m, content, i);
        }
    }
}

/// Options go together where there is a prompt or a chat, and no raw prompt in a chat.
pub proof fn options_that_go_together(args: Args, r: Result<(), ArgsError>)
    requires
        call_ensures(validate_args, (&args,), r),
    ensures
        r is Ok <==> (args.chat || args.prompt is Some) && !(args.chat && args.raw_prompt),
        r == Err::<(), ArgsError>(ArgsError::PromptRequired) <==> !args.chat && args.prompt is None,
        r == Err::<(), ArgsError>(ArgsError::RawPromptInChat) <==> args.chat && args.raw_prompt,
{
}

/// The repositories in which a tokenizer is looked for: the requested one first, each once.
pub proof fn requested_repository_comes_first(
    requested: &str,
    source: ModelSource,
    r: Vec<String>,
    i: int,
    j: int,
)
    requires
        call_ensures(tokenizer_model_candidates, (requested, &source), r),
    ensures
        r@.len() > 0,
        r@[0]@ == requested@,
        0 <= i < j < r@.len() ==> r@[i]@ != r@[j]@,
        source matches ModelSource::Dense { repo_id } ==> exists|k: int|
            0 <= k < r@.len() && #[trigger] r@[k]@ == repo_id@,
        source matches ModelSource::Quantized { repo_id } ==> exists|k: int|
            0 <= k < r@.len() && #[trigger] r@[k]@ == repo_id@,
{
    let names = text::views(r@);
    repo::candidates_are_the_listed_repos(requested@, source);
    assert(names[0] == r@[0]@);
    if 0 <= i < j < r@.len() {
        assert(names[i] != names[j]);
    }
    let name = match source {
        ModelSource::Dense { repo_id } => repo_id@,
        ModelSource::Quantized { repo_id } => repo_id@,
    };
    repo::repositories_that_may_hold_a_tokenizer(requested@, source, name);
    assert(names.contains(name));
    let k = choose|k: int| 0 <= k < names.len() && names[k] == name;
    assert(r@[k]@ == name);
}

}
