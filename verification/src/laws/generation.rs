//! Laws of generation: which token follows which.
use crate::arith::Arith;
use crate::model::any_tokenizer::AnyTokenizer;
use crate::model::generate::{run_from, run_of, GenView};
use crate::model::infer::{cache_rows, empty_cache, head_value, token_flow, CacheView};
use crate::model::sampler::SamplerView;
use crate::model::weights::Model;
use vstd::prelude::*;

verus! {

/// What the model says after reading token `seen[i]` at position `i`.
pub open spec fn said(k: Arith, model: Model, caches: Seq<CacheView>, seen: Seq<u32>, i: int) -> Seq<
    u32,
> {
    head_value(k, model, token_flow(k, model, caches[i], seen[i] as int, i).x)
}

/// Token `i + 1` follows token `i`. Within the prompt it is the prompt's; behind it, it is
/// what the sampler draws from what the model says of token `i`, and no token that stops
/// generation. Token `i` leaves its caches to the next, and only a draw takes the sampler on.
pub open spec fn follows(
    k: Arith,
    model: Model,
    t: AnyTokenizer,
    prompt: Seq<u32>,
    seen: Seq<u32>,
    samplers: Seq<SamplerView>,
    caches: Seq<CacheView>,
    i: int,
) -> bool {
    let next = i + 1;
    &&& caches[next] == token_flow(k, model, caches[i], seen[i] as int, i).cache
    &&& if next < prompt.len() {
        seen[next] == prompt[next] && samplers[next] == samplers[i]
    } else {
        &&& seen[next] == samplers[i].token(k, said(k, model, caches, seen, i)) as u32
        &&& samplers[next] == samplers[i].next()
        &&& !t.stops(seen[next])
    }
}

/// The model has a row for token `i` and something to say of it.
pub open spec fn is_read(k: Arith, model: Model, seen: Seq<u32>, caches: Seq<CacheView>, i: int) -> bool {
    &&& model.tok_emb.has_row(seen[i] as int, model.config.dim as int)
    &&& said(k, model, caches, seen, i).len() > 0
}

/// The tokens `seen` are a generation's: they start as the prompt does, each follows the one
/// before it, and they are no more than `most`.
pub open spec fn is_history(
    k: Arith,
    model: Model,
    t: AnyTokenizer,
    prompt: Seq<u32>,
    most: int,
    seen: Seq<u32>,
    samplers: Seq<SamplerView>,
    caches: Seq<CacheView>,
) -> bool {
    &&& prompt.len() > 0
    &&& 0 < seen.len() <= most
    &&& samplers.len() == seen.len()
    &&& caches.len() == seen.len()
    &&& seen[0] == prompt[0]
    &&& forall|i: int| 0 <= i < seen.len() ==> #[trigger] is_read(k, model, seen, caches, i)
    &&& forall|i: int|
        0 <= i < seen.len() - 1 ==> #[trigger] follows(
            k,
            model,
            t,
            prompt,
            seen,
            samplers,
            caches,
            i,
        )
}

/// The generation that saw `seen` is over: there is no room for another token, or the next
/// one drawn stops it.
pub open spec fn is_over(
    k: Arith,
    model: Model,
    t: AnyTokenizer,
    prompt: Seq<u32>,
    most: int,
    seen: Seq<u32>,
    samplers: Seq<SamplerView>,
    caches: Seq<CacheView>,
) -> bool {
    let last = seen.len() - 1;
    ||| seen.len() == most
    ||| seen.len() >= prompt.len() && t.stops(
        samplers[last].token(k, said(k, model, caches, seen, last)) as u32,
    )
}

/// What `seen` holds from `i` on and behind the prompt.
pub open spec fn behind(seen: Seq<u32>, prompt: Seq<u32>, i: int) -> Seq<u32> {
    let from = if i < prompt.len() {
        prompt.len() as int
    } else {
        i
    };
    if from < seen.len() {
        seen.subrange(from, seen.len() as int)
    } else {
        Seq::empty()
    }
}

#[verifier::spinoff_prover]
proof fn lemma_history(
    k: Arith,
    model: Model,
    t: AnyTokenizer,
    prompt: Seq<u32>,
    most: int,
    seen: Seq<u32>,
    samplers: Seq<SamplerView>,
    caches: Seq<CacheView>,
    i: int,
    g: GenView,
)
    requires
        is_history(k, model, t, prompt, most, seen, samplers, caches),
        is_over(k, model, t, prompt, most, seen, samplers, caches),
        0 <= i < seen.len(),
        g.prompt == prompt,
        g.max_pos == most,
        g.pos == i,
        g.token == seen[i],
        !g.done,
    ensures
        ({
            let run = run_from(k, model, t, g, samplers[i], caches[i]);
            &&& run.tokens == behind(seen, prompt, i + 1)
            &&& run.generated == g.generated + behind(seen, prompt, i + 1).len()
            &&& run.pieces.len() == seen.len() - 1 - i
            &&& forall|j: int|
                0 <= j < run.pieces.len() ==> #[trigger] run.pieces[j] == (
                    t.written(seen[i + j], seen[i + j + 1]),
                    i + j + 1 < prompt.len(),
                )
        }),
    decreases seen.len() - i,
{
    let s = samplers[i];
    let logits = said(k, model, caches, seen, i);
    let run = run_from(k, model, t, g, s, caches[i]);
    assert(is_read(k, model, seen, caches, i));
    assert(!g.stuck(model));
    assert(!g.barren(s, logits));
    if i + 1 < seen.len() {
        assert(follows(k, model, t, prompt, seen, samplers, caches, i));
        assert(g.next_token(k, s, logits) == seen[i + 1]);
        assert(!g.ends(k, t, s, logits));
        let next = g.after(k, t, s, logits);
        assert(g.next_sampler(s, logits) == samplers[i + 1]);
        lemma_history(k, model, t, prompt, most, seen, samplers, caches, i + 1, next);
        let rest = run_from(k, model, t, next, samplers[i + 1], caches[i + 1]);
        assert(run.pieces == seq![g.piece(k, t, s, logits)] + rest.pieces);
        assert forall|j: int| 0 <= j < run.pieces.len() implies #[trigger] run.pieces[j] == (
            t.written(seen[i + j], seen[i + j + 1]),
            i + j + 1 < prompt.len(),
        ) by {
            if j > 0 {
                assert(run.pieces[j] == rest.pieces[j - 1]);
                assert(i + 1 + (j - 1) == i + j);
            }
        }
        if i + 1 >= prompt.len() {
            assert(seq![seen[i + 1]] + behind(seen, prompt, i + 2) =~= behind(seen, prompt, i + 1));
        } else {
            assert(behind(seen, prompt, i + 2) =~= behind(seen, prompt, i + 1));
        }
    } else {
        assert(g.ends(k, t, s, logits));
        assert(behind(seen, prompt, i + 1) =~= Seq::empty());
    }
}

/// A run generates its history: the tokens are those seen behind the prompt, and a piece
/// is written for every token seen behind another.
#[verifier::spinoff_prover]
pub proof fn law_generation(
    k: Arith,
    model: Model,
    t: AnyTokenizer,
    prompt: Seq<u32>,
    steps: int,
    most: int,
    seen: Seq<u32>,
    samplers: Seq<SamplerView>,
    caches: Seq<CacheView>,
    zeros: Seq<u32>,
)
    requires
        0 <= steps,
        most <= prompt.len() + steps,
        most <= model.config.seq_len,
        most == prompt.len() + steps || most == model.config.seq_len,
        is_history(k, model, t, prompt, most, seen, samplers, caches),
        is_over(k, model, t, prompt, most, seen, samplers, caches),
        zeros.len() == most * (model.config.n_kv_heads * model.config.head_dim),
        forall|i: int| 0 <= i < zeros.len() ==> #[trigger] zeros[i] == 0,
        caches[0].k.len() == model.config.n_layers,
        caches[0].v.len() == model.config.n_layers,
        forall|l: int|
            0 <= l < model.config.n_layers ==> #[trigger] caches[0].k[l] == zeros,
        forall|l: int|
            0 <= l < model.config.n_layers ==> #[trigger] caches[0].v[l] == zeros,
    ensures
        ({
            let run = run_of(k, model, t, prompt, steps, samplers[0]);
            &&& run.tokens == behind(seen, prompt, 0)
            &&& run.generated == run.tokens.len()
            &&& run.pieces.len() == seen.len() - 1
            &&& forall|j: int|
                0 <= j < run.pieces.len() ==> #[trigger] run.pieces[j] == (
                    t.written(seen[j], seen[j + 1]),
                    j + 1 < prompt.len(),
                )
        }),
{
    let g = GenView::start(prompt, steps, model.config.seq_len as int);
    assert(g.max_pos == most);
    assert(cache_rows(model.config, most) == most);
    let empty = empty_cache(
        model.config.n_layers as nat,
        (most * model.config.kv_width()) as nat,
    );
    assert(most * model.config.kv_width() == zeros.len());
    let blank = Seq::new(zeros.len(), |i: int| 0u32);
    assert(zeros =~= blank);
    assert forall|l: int| 0 <= l < model.config.n_layers implies #[trigger] caches[0].k[l]
        == empty.k[l] by {}
    assert forall|l: int| 0 <= l < model.config.n_layers implies #[trigger] caches[0].v[l]
        == empty.v[l] by {}
    assert(caches[0].k =~= empty.k);
    assert(caches[0].v =~= empty.v);
    assert(caches[0] == empty);
    assert(seen[0] == prompt[0]);
    lemma_history(k, model, t, prompt, most, seen, samplers, caches, 0, g);
    assert(behind(seen, prompt, 0) =~= behind(seen, prompt, 1));
    let run = run_of(k, model, t, prompt, steps, samplers[0]);
    assert forall|j: int| 0 <= j < run.pieces.len() implies #[trigger] run.pieces[j] == (
        t.written(seen[j], seen[j + 1]),
        j + 1 < prompt.len(),
    ) by {
        assert(run.pieces[j] == (t.written(seen[0 + j], seen[0 + j + 1]), 0 + j + 1 < prompt.len()));
    }
}

} // verus!
