//! Text generation: the prompt is fed in token by token, then the model's own
//! tokens, until a stop token, the requested number or the end of the context.
use crate::arith::{arith, is_arith, Arith, Op};
use crate::model::any_tokenizer::AnyTokenizer;
use crate::model::infer::{
    cache_rows, embedded, empty_cache, forward, has_room, head_value, law_forward_is_causal, lemma_layers_flow_shapes,
    same_history, token_flow, CacheView, Flow, KvCache,
};
use crate::model::sampler::{Sampler, SamplerView};
use crate::model::weights::{Embedding, Model};
use vstd::prelude::*;

verus! {

/// A piece of text, and whether it is part of the prompt.
#[derive(Debug)]
pub struct Piece {
    pub bytes: Vec<u8>,
    pub prompt: bool,
}

impl View for Piece {
    type V = (Seq<u8>, bool);

    open spec fn view(&self) -> (Seq<u8>, bool) {
        (self.bytes@, self.prompt)
    }
}

/// What some pieces are.
pub open spec fn piece_seq(pieces: Seq<Piece>) -> Seq<(Seq<u8>, bool)> {
    Seq::new(pieces.len(), |i: int| pieces[i]@)
}

/// Statistics of a generation run.
#[derive(Debug, Clone, Copy, PartialEq, Eq, Structural)]
pub struct GenStats {
    pub prompt_tokens: usize,
    pub generated_tokens: usize,
}

/// Positions of a run: as many as prompt and requested tokens take, but no more
/// than the context has.
pub open spec fn last_position(prompt_len: int, steps: int, seq_len: int) -> int {
    if prompt_len + steps < seq_len {
        prompt_len + steps
    } else {
        seq_len
    }
}

/// Where a run stands: the token at position `pos`, and how many of its own
/// tokens the model has added so far.
pub struct GenView {
    pub prompt: Seq<u32>,
    pub max_pos: int,
    pub pos: int,
    pub token: u32,
    pub generated: int,
    pub done: bool,
}

impl GenView {
    /// The start of a run.
    pub open spec fn start(prompt: Seq<u32>, steps: int, seq_len: int) -> GenView {
        let max_pos = last_position(prompt.len() as int, steps, seq_len);
        GenView { prompt, max_pos, pos: 0, token: prompt[0], generated: 0, done: max_pos == 0 }
    }

    /// The next token is the prompt's.
    pub open spec fn in_prompt(self) -> bool {
        self.pos + 1 < self.prompt.len()
    }

    /// There is no room for another token.
    pub open spec fn full(self) -> bool {
        self.pos + 1 >= self.max_pos
    }

    pub open spec fn wf(self) -> bool {
        &&& self.prompt.len() > 0
        &&& 0 <= self.generated <= self.pos
        &&& self.max_pos <= usize::MAX
        &&& !self.done ==> 0 <= self.pos < self.max_pos
        &&& self.pos < self.prompt.len() ==> self.token == self.prompt[self.pos]
    }

    /// The token at the next position.
    pub open spec fn next_token(self, k: Arith, s: SamplerView, logits: Seq<u32>) -> u32 {
        if self.in_prompt() {
            self.prompt[self.pos + 1]
        } else {
            s.token(k, logits) as u32
        }
    }

    /// There is nothing to draw the next token from.
    pub open spec fn barren(self, s: SamplerView, logits: Seq<u32>) -> bool {
        !self.in_prompt() && s.temp is Some && logits.len() == 0
    }

    /// The token at this position is one that the model drew, and has no embedding.
    pub open spec fn stuck(self, model: Model) -> bool {
        self.pos >= self.prompt.len() && !model.tok_emb.has_row(
            self.token as int,
            model.config.dim as int,
        )
    }

    /// The sampler at the next position: a draw is made only for the model's own
    /// tokens.
    pub open spec fn next_sampler(self, s: SamplerView, logits: Seq<u32>) -> SamplerView {
        if self.full() || self.in_prompt() || self.barren(s, logits) {
            s
        } else {
            s.next()
        }
    }

    /// The run ends at this position.
    pub open spec fn ends(self, k: Arith, t: AnyTokenizer, s: SamplerView, logits: Seq<u32>) -> bool {
        ||| self.full()
        ||| self.barren(s, logits)
        ||| !self.in_prompt() && t.stops(self.next_token(k, s, logits))
    }

    /// Where the run stands after this position.
    pub open spec fn after(self, k: Arith, t: AnyTokenizer, s: SamplerView, logits: Seq<u32>) -> GenView {
        if self.ends(k, t, s, logits) {
            GenView { done: true, ..self }
        } else {
            GenView {
                pos: self.pos + 1,
                token: self.next_token(k, s, logits),
                generated: if self.in_prompt() {
                    self.generated
                } else {
                    self.generated + 1
                },
                ..self
            }
        }
    }

    /// The piece that this position adds.
    pub open spec fn piece(self, k: Arith, t: AnyTokenizer, s: SamplerView, logits: Seq<u32>) -> (
        Seq<u8>,
        bool,
    ) {
        (t.written(self.token, self.next_token(k, s, logits)), self.in_prompt())
    }
}

/// What comes of a run: its pieces, the tokens that are the model's own and how many
/// they are, and the sampler it leaves behind.
pub struct GenRun {
    pub pieces: Seq<(Seq<u8>, bool)>,
    pub tokens: Seq<u32>,
    pub generated: int,
    pub sampler: SamplerView,
}

/// The rest of a run. It ends, too, where the model has drawn a token that it has no
/// embedding for, or has nothing to draw from.
pub open spec fn run_from(
    k: Arith,
    model: Model,
    t: AnyTokenizer,
    g: GenView,
    s: SamplerView,
    cache: CacheView,
) -> GenRun
    decreases g.max_pos - g.pos,
{
    if g.done || g.pos >= g.max_pos || g.stuck(model) {
        GenRun { pieces: Seq::empty(), tokens: Seq::empty(), generated: g.generated, sampler: s }
    } else {
        let flow = token_flow(k, model, cache, g.token as int, g.pos);
        let logits = head_value(k, model, flow.x);
        if g.ends(k, t, s, logits) {
            GenRun {
                pieces: Seq::empty(),
                tokens: Seq::empty(),
                generated: g.generated,
                sampler: g.next_sampler(s, logits),
            }
        } else {
            let rest = run_from(
                k,
                model,
                t,
                g.after(k, t, s, logits),
                g.next_sampler(s, logits),
                flow.cache,
            );
            GenRun {
                pieces: seq![g.piece(k, t, s, logits)] + rest.pieces,
                tokens: if g.in_prompt() {
                    rest.tokens
                } else {
                    seq![g.next_token(k, s, logits)] + rest.tokens
                },
                generated: rest.generated,
                sampler: rest.sampler,
            }
        }
    }
}

/// A whole run.
pub open spec fn run_of(
    k: Arith,
    model: Model,
    t: AnyTokenizer,
    prompt: Seq<u32>,
    steps: int,
    s: SamplerView,
) -> GenRun {
    let g = GenView::start(prompt, steps, model.config.seq_len as int);
    run_from(
        k,
        model,
        t,
        g,
        s,
        empty_cache(
            model.config.n_layers as nat,
            (cache_rows(model.config, g.max_pos) * model.config.kv_width()) as nat,
        ),
    )
}

/// From any position on, the model adds no more tokens than there are positions
/// left behind the prompt, and each piece is one token: those of the prompt come
/// first, and are so marked.
proof fn lemma_run_counts(
    k: Arith,
    model: Model,
    t: AnyTokenizer,
    g: GenView,
    s: SamplerView,
    cache: CacheView,
)
    requires
        g.wf(),
        !g.done,
    ensures
        ({
            let r = run_from(k, model, t, g, s, cache);
            let last = if g.max_pos < g.prompt.len() {
                g.max_pos
            } else {
                g.prompt.len() as int
            };
            let echoed = if last - 1 - g.pos > 0 {
                last - 1 - g.pos
            } else {
                0
            };
            &&& g.generated <= r.generated
            &&& r.generated - g.generated <= if g.max_pos - 1 - g.pos - echoed > 0 {
                g.max_pos - 1 - g.pos - echoed
            } else {
                0
            }
            &&& r.pieces.len() == echoed + (r.generated - g.generated)
            &&& forall|i: int|
                0 <= i < echoed ==> #[trigger] r.pieces[i] == (
                    t.written(g.prompt[g.pos + i], g.prompt[g.pos + i + 1]),
                    true,
                )
            &&& forall|i: int|
                echoed <= i < r.pieces.len() ==> !(#[trigger] r.pieces[i]).1
        }),
    decreases g.max_pos - g.pos,
{
    let flow = token_flow(k, model, cache, g.token as int, g.pos);
    let logits = head_value(k, model, flow.x);
    if !g.stuck(model) && !g.ends(k, t, s, logits) {
        let h = g.after(k, t, s, logits);
        lemma_run_counts(k, model, t, h, g.next_sampler(s, logits), flow.cache);
        let r = run_from(k, model, t, g, s, cache);
        let rest = run_from(k, model, t, h, g.next_sampler(s, logits), flow.cache);
        assert(r.pieces =~= seq![g.piece(k, t, s, logits)] + rest.pieces);
        assert forall|i: int| 0 < i < r.pieces.len() implies #[trigger] r.pieces[i] == rest.pieces[i
            - 1] by {}
    }
}

/// The prompt's tokens from this position on, as far as the context reaches; behind
/// the prompt the token at this position.
pub open spec fn ahead(g: GenView) -> Seq<u32> {
    let last = if g.max_pos < g.prompt.len() {
        g.max_pos
    } else {
        g.prompt.len() as int
    };
    if g.pos < last {
        g.prompt.subrange(g.pos, last)
    } else {
        seq![g.token]
    }
}

/// From any position on, the pieces are what is written of the tokens ahead and of
/// those that the model draws, and none of these is one that ends a text.
proof fn lemma_run_tokens(
    k: Arith,
    model: Model,
    t: AnyTokenizer,
    g: GenView,
    s: SamplerView,
    cache: CacheView,
)
    requires
        g.wf(),
        !g.done,
    ensures
        ({
            let r = run_from(k, model, t, g, s, cache);
            let seen = ahead(g) + r.tokens;
            &&& r.tokens.len() == r.generated - g.generated
            &&& r.pieces.len() == seen.len() - 1
            &&& forall|i: int|
                0 <= i < r.pieces.len() ==> (#[trigger] r.pieces[i]).0 == t.written(
                    seen[i],
                    seen[i + 1],
                )
            &&& forall|i: int| 0 <= i < r.tokens.len() ==> !t.stops(#[trigger] r.tokens[i])
        }),
    decreases g.max_pos - g.pos,
{
    let flow = token_flow(k, model, cache, g.token as int, g.pos);
    let logits = head_value(k, model, flow.x);
    if !g.stuck(model) && !g.ends(k, t, s, logits) {
        let h = g.after(k, t, s, logits);
        lemma_run_tokens(k, model, t, h, g.next_sampler(s, logits), flow.cache);
        let r = run_from(k, model, t, g, s, cache);
        let rest = run_from(k, model, t, h, g.next_sampler(s, logits), flow.cache);
        let seen = ahead(g) + r.tokens;
        let seen_next = ahead(h) + rest.tokens;
        assert(seen =~= seq![g.token] + seen_next);
        assert(r.pieces =~= seq![g.piece(k, t, s, logits)] + rest.pieces);
        assert(seen_next[0] == h.token);
        assert forall|i: int| 0 <= i < r.pieces.len() implies (#[trigger] r.pieces[i]).0
            == t.written(seen[i], seen[i + 1]) by {
            if i > 0 {
                assert(r.pieces[i] == rest.pieces[i - 1]);
                assert(seen[i] == seen_next[i - 1] && seen[i + 1] == seen_next[i]);
            }
        }
    }
}

/// The pieces of a run are what is written of the prompt, as far as the context
/// reaches, and of the generated tokens behind it, each behind the one before; and a
/// token that ends the text is neither counted nor written.
pub proof fn law_stop_tokens_never_show(
    k: Arith,
    model: Model,
    t: AnyTokenizer,
    prompt: Seq<u32>,
    steps: int,
    s: SamplerView,
)
    requires
        prompt.len() > 0,
        0 <= steps,
        model.config.seq_len > 0,
    ensures
        ({
            let r = run_of(k, model, t, prompt, steps, s);
            let last = if prompt.len() < model.config.seq_len {
                prompt.len() as int
            } else {
                model.config.seq_len as int
            };
            let seen = prompt.take(last) + r.tokens;
            &&& r.tokens.len() == r.generated
            &&& forall|i: int| 0 <= i < r.tokens.len() ==> !t.stops(#[trigger] r.tokens[i])
            &&& r.pieces.len() == seen.len() - 1
            &&& forall|i: int|
                0 <= i < r.pieces.len() ==> (#[trigger] r.pieces[i]).0 == t.written(
                    seen[i],
                    seen[i + 1],
                )
        }),
{
    let g = GenView::start(prompt, steps, model.config.seq_len as int);
    let cache = empty_cache(
        model.config.n_layers as nat,
        (cache_rows(model.config, g.max_pos) * model.config.kv_width()) as nat,
    );
    lemma_run_tokens(k, model, t, g, s, cache);
    let last = if prompt.len() < model.config.seq_len {
        prompt.len() as int
    } else {
        model.config.seq_len as int
    };
    assert(ahead(g) =~= prompt.take(last));
}

/// Prompt and generated tokens never exceed the context, and no more tokens are
/// generated than were asked for.
pub proof fn law_context_limit(
    k: Arith,
    model: Model,
    t: AnyTokenizer,
    prompt: Seq<u32>,
    steps: int,
    s: SamplerView,
)
    requires
        prompt.len() > 0,
        0 <= steps,
    ensures
        0 <= run_of(k, model, t, prompt, steps, s).generated <= steps,
        prompt.len() <= model.config.seq_len ==> prompt.len() + run_of(
            k,
            model,
            t,
            prompt,
            steps,
            s,
        ).generated <= model.config.seq_len,
        prompt.len() >= model.config.seq_len ==> run_of(k, model, t, prompt, steps, s).generated == 0,
{
    let g = GenView::start(prompt, steps, model.config.seq_len as int);
    let cache = empty_cache(
        model.config.n_layers as nat,
        (cache_rows(model.config, g.max_pos) * model.config.kv_width()) as nat,
    );
    if !g.done {
        lemma_run_counts(k, model, t, g, s, cache);
    }
}

/// The pieces of a run: first the prompt, token by token behind its first and as
/// far as the context reaches, marked as prompt; then one for every generated
/// token, not so marked.
pub proof fn law_prompt_comes_first(
    k: Arith,
    model: Model,
    t: AnyTokenizer,
    prompt: Seq<u32>,
    steps: int,
    s: SamplerView,
)
    requires
        prompt.len() > 0,
        0 <= steps,
        model.config.seq_len > 0,
    ensures
        ({
            let r = run_of(k, model, t, prompt, steps, s);
            let last = if prompt.len() < model.config.seq_len {
                prompt.len() as int
            } else {
                model.config.seq_len as int
            };
            &&& r.pieces.len() == last - 1 + r.generated
            &&& forall|i: int|
                0 <= i < last - 1 ==> #[trigger] r.pieces[i] == (
                    t.written(prompt[i], prompt[i + 1]),
                    true,
                )
            &&& forall|i: int| last - 1 <= i < r.pieces.len() ==> !(#[trigger] r.pieces[i]).1
        }),
{
    let g = GenView::start(prompt, steps, model.config.seq_len as int);
    let cache = empty_cache(
        model.config.n_layers as nat,
        (cache_rows(model.config, g.max_pos) * model.config.kv_width()) as nat,
    );
    lemma_run_counts(k, model, t, g, s, cache);
}

/// A run, one position at a time.
#[derive(Debug)]
pub struct Generation {
    prompt: Vec<u32>,
    max_pos: usize,
    pos: usize,
    token: u32,
    generated: usize,
    done: bool,
}

impl View for Generation {
    type V = GenView;

    closed spec fn view(&self) -> GenView {
        GenView {
            prompt: self.prompt@,
            max_pos: self.max_pos as int,
            pos: self.pos as int,
            token: self.token,
            generated: self.generated as int,
            done: self.done,
        }
    }
}

impl Generation {
    /// Starts a run of at most `steps` tokens behind `prompt`.
    pub fn new(prompt: Vec<u32>, steps: usize, seq_len: usize) -> (g: Self)
        requires
            prompt@.len() > 0,
        ensures
            g@ == GenView::start(prompt@, steps as int, seq_len as int),
            g@.wf(),
    {
        let wanted: u128 = prompt.len() as u128 + steps as u128;
        let max_pos: usize = if wanted < seq_len as u128 {
            wanted as usize
        } else {
            seq_len
        };
        let token: u32 = prompt[0];
        Generation { prompt, max_pos, pos: 0, token, generated: 0, done: max_pos == 0 }
    }

    /// Whether the run has ended.
    pub fn is_done(&self) -> (b: bool)
        ensures
            b == self@.done,
    {
        self.done
    }

    /// The position to feed next.
    pub fn position(&self) -> (pos: usize)
        ensures
            pos == self@.pos,
    {
        self.pos
    }

    /// The token to feed next.
    pub fn token(&self) -> (token: u32)
        ensures
            token == self@.token,
    {
        self.token
    }

    /// Positions of the run.
    pub fn positions(&self) -> (n: usize)
        ensures
            n == self@.max_pos,
    {
        self.max_pos
    }

    /// The statistics so far.
    pub fn stats(&self) -> (s: GenStats)
        ensures
            s.prompt_tokens == self@.prompt.len(),
            s.generated_tokens == self@.generated,
    {
        GenStats { prompt_tokens: self.prompt.len(), generated_tokens: self.generated }
    }

    /// Takes the logits of the current position, chooses the next token and moves
    /// on to it. Returns the piece that it adds, or `None` where the run ends.
    pub fn advance<F: Fn(Op, u32, u32) -> u32>(
        &mut self,
        logits: &[u32],
        tokenizer: &AnyTokenizer,
        sampler: &mut Sampler,
        calc: &F,
    ) -> (piece: Option<Piece>)
        requires
            is_arith(*calc),
            tokenizer.wf(),
            old(self)@.wf(),
            !old(self)@.done,
        ensures
            final(self)@.wf(),
            final(self)@ == old(self)@.after(arith(*calc), *tokenizer, old(sampler)@, logits@),
            final(sampler)@ == old(self)@.next_sampler(old(sampler)@, logits@),
            piece is None <==> old(self)@.ends(
                arith(*calc),
                *tokenizer,
                old(sampler)@,
                logits@,
            ),
            piece matches Some(p) ==> p@ == old(self)@.piece(
                arith(*calc),
                *tokenizer,
                old(sampler)@,
                logits@,
            ),
    {
        if self.pos + 1 >= self.max_pos {
            self.done = true;
            return None;
        }
        let in_prompt: bool = self.pos + 1 < self.prompt.len();
        if !in_prompt && logits.len() == 0 && !sampler.is_greedy() {
            self.done = true;
            return None;
        }
        let next: u32 = if in_prompt {
            self.prompt[self.pos + 1]
        } else {
            sampler.sample(logits, calc)
        };
        if !in_prompt {
            if tokenizer.is_stop(next) {
                self.done = true;
                return None;
            }
            self.generated = self.generated + 1;
        }
        let bytes: Vec<u8> = tokenizer.decode(self.token, next);
        self.token = next;
        self.pos = self.pos + 1;
        Some(Piece { bytes, prompt: in_prompt })
    }
}

impl Model {
    /// A run of at most `steps` tokens behind `prompt` can be made: the caches can be
    /// allocated, and where there is a position to feed, the model can run and has an
    /// embedding for every token of the prompt that is fed.
    pub open spec fn runs_on(&self, prompt: Seq<u32>, steps: int) -> bool {
        let max_pos = last_position(prompt.len() as int, steps, self.config.seq_len as int);
        &&& self.config.kv_width() <= usize::MAX
        &&& max_pos * self.config.kv_width() <= usize::MAX
        &&& max_pos > 0 ==> self.fits() && self.layers@.len() <= self.config.n_layers
        &&& forall|i: int|
            0 <= i < prompt.len() && i < max_pos ==> self.tok_emb.has_row(
                #[trigger] prompt[i] as int,
                self.config.dim as int,
            )
    }

    /// Whether the embedding table has a row for `token`.
    pub fn has_token(&self, token: u32) -> (r: bool)
        requires
            self.wf(),
        ensures
            r == self.tok_emb.has_row(token as int, self.config.dim as int),
    {
        let dim: usize = self.config.dim;
        match &self.tok_emb {
            Embedding::F32(w) => {
                proof {
                    assert((token + 1) * dim <= u128::MAX) by (nonlinear_arith)
                        requires
                            token + 1 <= 0x1_0000_0000,
                            dim <= 0xffff_ffff_ffff_ffff,
                    ;
                }
                (token as u128 + 1) * dim as u128 <= w.len() as u128
            },
            Embedding::KQuant(m) => (token as u64) < m.rows as u64 && m.cols == dim,
        }
    }

    /// Whether a run of at most `steps` tokens behind `prompt` can be made.
    pub fn can_generate(&self, prompt: &[u32], steps: usize) -> (r: bool)
        requires
            self.wf(),
        ensures
            r == (prompt@.len() > 0 && self.runs_on(prompt@, steps as int)),
    {
        if prompt.len() == 0 {
            return false;
        }
        let wanted: u128 = prompt.len() as u128 + steps as u128;
        let max_pos: usize = if wanted < self.config.seq_len as u128 {
            wanted as usize
        } else {
            self.config.seq_len
        };
        match self.config.n_kv_heads.checked_mul(self.config.head_dim) {
            None => {
                return false;
            },
            Some(kv) => {
                if max_pos.checked_mul(kv).is_none() {
                    return false;
                }
            },
        }
        if max_pos > 0 && (!self.can_run() || self.layers.len() > self.config.n_layers) {
            return false;
        }
        let mut i: usize = 0;
        while i < prompt.len() && i < max_pos
            invariant
                self.wf(),
                i <= prompt@.len(),
                max_pos == last_position(
                    prompt@.len() as int,
                    steps as int,
                    self.config.seq_len as int,
                ),
                forall|j: int|
                    0 <= j < i ==> self.tok_emb.has_row(
                        #[trigger] prompt@[j] as int,
                        self.config.dim as int,
                    ),
            decreases prompt.len() - i,
        {
            if !self.has_token(prompt[i]) {
                return false;
            }
            i += 1;
        }
        true
    }
}

/// Generates up to `steps` tokens behind the tokens of a prompt.
pub fn generate_from<F: Fn(Op, u32, u32) -> u32>(
    model: &Model,
    tokenizer: &AnyTokenizer,
    prompt: Vec<u32>,
    steps: usize,
    sampler: &mut Sampler,
    calc: &F,
) -> (r: (Vec<Piece>, GenStats))
    requires
        is_arith(*calc),
        tokenizer.wf(),
        model.wf(),
        prompt@.len() > 0,
        model.runs_on(prompt@, steps as int),
    ensures
        ({
            let run = run_of(
                arith(*calc),
                *model,
                *tokenizer,
                prompt@,
                steps as int,
                old(sampler)@,
            );
            &&& piece_seq(r.0@) == run.pieces
            &&& r.1.prompt_tokens == prompt@.len()
            &&& r.1.generated_tokens == run.generated
            &&& final(sampler)@ == run.sampler
        }),
{
    let ghost k = arith(*calc);
    let ghost whole = run_of(k, *model, *tokenizer, prompt@, steps as int, sampler@);
    let ghost tokens = prompt@;
    let c = model.config;
    let n_prompt: usize = prompt.len();
    let mut g = Generation::new(prompt, steps, c.seq_len);
    let ghost max_pos = g@.max_pos;
    proof {
        assert(0 <= c.kv_width()) by (nonlinear_arith)
            requires
                c.kv_width() == c.n_kv_heads * c.head_dim,
        ;
        assert(cache_rows(c, max_pos) == max_pos);
    }
    let mut cache = KvCache::with_len(model, g.positions());
    let mut pieces: Vec<Piece> = Vec::new();
    proof {
        assert(piece_seq(pieces@) =~= Seq::empty());
        assert(whole.pieces =~= Seq::<(Seq<u8>, bool)>::empty() + whole.pieces);
        assert forall|pos: int| 0 <= pos < max_pos implies has_room(
            cache@,
            model.layers@.len() as int,
            c,
            pos,
        ) by {
            assert((pos + 1) * c.kv_width() <= max_pos * c.kv_width()) by (nonlinear_arith)
                requires
                    pos + 1 <= max_pos,
                    0 <= c.kv_width(),
            ;
        }
    }
    while !(g.is_done() || (g.position() >= n_prompt && !model.has_token(g.token())))
        invariant
            is_arith(*calc),
            k == arith(*calc),
            c == model.config,
            tokenizer.wf(),
            model.wf(),
            n_prompt == tokens.len(),
            model.runs_on(tokens, steps as int),
            max_pos == last_position(tokens.len() as int, steps as int, c.seq_len as int),
            g@.wf(),
            g@.max_pos == max_pos,
            g@.prompt == tokens,
            forall|pos: int|
                0 <= pos < max_pos ==> has_room(cache@, model.layers@.len() as int, c, pos),
            whole.pieces == piece_seq(pieces@) + run_from(
                k,
                *model,
                *tokenizer,
                g@,
                sampler@,
                cache@,
            ).pieces,
            whole.generated == run_from(k, *model, *tokenizer, g@, sampler@, cache@).generated,
            whole.sampler == run_from(k, *model, *tokenizer, g@, sampler@, cache@).sampler,
        decreases max_pos - g@.pos, if g@.done { 0int } else { 1int },
    {
        let ghost before = g@;
        let ghost drawn = sampler@;
        let ghost cached = cache@;
        let logits: Vec<u32> = forward(model, &mut cache, g.token(), g.position(), calc);
        let ghost flow = token_flow(k, *model, cached, before.token as int, before.pos);
        proof {
            lemma_flow_room(k, *model, cached, before.token as int, before.pos, max_pos);
        }
        let ghost rest = run_from(k, *model, *tokenizer, before, drawn, cached);
        match g.advance(logits.as_slice(), tokenizer, sampler, calc) {
            Some(p) => {
                let ghost so_far = piece_seq(pieces@);
                pieces.push(p);
                proof {
                    assert(piece_seq(pieces@) =~= so_far.push(p@));
                    let tail = run_from(k, *model, *tokenizer, g@, sampler@, cache@);
                    assert(rest.pieces =~= seq![p@] + tail.pieces);
                    assert(so_far + rest.pieces =~= so_far.push(p@) + tail.pieces);
                }
            },
            None => {
                proof {
                    assert(rest.pieces =~= Seq::empty());
                    assert(run_from(k, *model, *tokenizer, g@, sampler@, cache@).pieces
                        =~= Seq::empty());
                }
            },
        }
    }
    proof {
        assert(whole.pieces =~= piece_seq(pieces@));
    }
    (pieces, g.stats())
}

/// Caches keep their size as a token goes through the layers.
proof fn lemma_flow_room(
    k: Arith,
    model: Model,
    cache: CacheView,
    token: int,
    pos: int,
    max_pos: int,
)
    requires
        forall|p: int|
            0 <= p < max_pos ==> has_room(cache, model.layers@.len() as int, model.config, p),
        0 < max_pos,
    ensures
        forall|p: int|
            0 <= p < max_pos ==> has_room(
                token_flow(k, model, cache, token, pos).cache,
                model.layers@.len() as int,
                model.config,
                p,
            ),
{
    assert(has_room(cache, model.layers@.len() as int, model.config, 0));
    lemma_layers_flow_shapes(
        k,
        model.config,
        model.layers@,
        Flow { x: embedded(k, model, token), cache },
        pos,
        model.layers@.len(),
    );
    let after = token_flow(k, model, cache, token, pos).cache;
    assert forall|p: int| 0 <= p < max_pos implies has_room(
        after,
        model.layers@.len() as int,
        model.config,
        p,
    ) by {
        assert(has_room(cache, model.layers@.len() as int, model.config, p));
        assert forall|l: int| 0 <= l < model.layers@.len() implies (#[trigger] after.k[l]).len() >= (
        p + 1) * model.config.kv_width() by {
            assert(after.k[l].len() == cache.k[l].len());
        }
        assert forall|l: int| 0 <= l < model.layers@.len() implies (#[trigger] after.v[l]).len() >= (
        p + 1) * model.config.kv_width() by {
            assert(after.v[l].len() == cache.v[l].len());
        }
    }
}

/// How large the caches are does not show in a run, nor what they hold for the
/// positions still to come.
pub proof fn law_run_ignores_cache_size(
    k: Arith,
    model: Model,
    t: AnyTokenizer,
    g: GenView,
    s: SamplerView,
    a: CacheView,
    b: CacheView,
)
    requires
        model.fits(),
        g.wf(),
        forall|p: int|
            0 <= p < g.max_pos ==> has_room(a, model.layers@.len() as int, model.config, p),
        forall|p: int|
            0 <= p < g.max_pos ==> has_room(b, model.layers@.len() as int, model.config, p),
        same_history(a, b, model.layers@.len() as int, model.config, g.pos),
    ensures
        run_from(k, model, t, g, s, a) == run_from(k, model, t, g, s, b),
    decreases g.max_pos - g.pos,
{
    if !g.done && !g.stuck(model) {
        let token = g.token as int;
        law_forward_is_causal(k, model, a, b, token, g.pos);
        let fa = token_flow(k, model, a, token, g.pos);
        let fb = token_flow(k, model, b, token, g.pos);
        let logits = head_value(k, model, fa.x);
        if !g.ends(k, t, s, logits) {
            lemma_flow_room(k, model, a, token, g.pos, g.max_pos);
            lemma_flow_room(k, model, b, token, g.pos, g.max_pos);
            law_run_ignores_cache_size(
                k,
                model,
                t,
                g.after(k, t, s, logits),
                g.next_sampler(s, logits),
                fa.cache,
                fb.cache,
            );
        }
    }
}

/// Generates up to `steps` tokens behind a prompt. `None` where not even the prompt
/// can be fed: it has no tokens, or the model cannot run on them.
pub fn generate<F: Fn(Op, u32, u32) -> u32>(
    model: &Model,
    tokenizer: &AnyTokenizer,
    prompt: &str,
    steps: usize,
    sampler: &mut Sampler,
    calc: &F,
) -> (r: Option<(Vec<Piece>, GenStats)>)
    requires
        is_arith(*calc),
        tokenizer.wf(),
        tokenizer.encodes(),
        model.wf(),
    ensures
        r is Some <==> tokenizer.prompt(prompt@).len() > 0 && model.runs_on(
            tokenizer.prompt(prompt@),
            steps as int,
        ),
        r is None ==> final(sampler)@ == old(sampler)@,
        r matches Some(out) ==> {
            let run = run_of(
                arith(*calc),
                *model,
                *tokenizer,
                tokenizer.prompt(prompt@),
                steps as int,
                old(sampler)@,
            );
            &&& piece_seq(out.0@) == run.pieces
            &&& out.1.prompt_tokens == tokenizer.prompt(prompt@).len()
            &&& out.1.generated_tokens == run.generated
            &&& final(sampler)@ == run.sampler
        },
{
    let tokens: Vec<u32> = tokenizer.encode_prompt(prompt);
    if !model.can_generate(tokens.as_slice(), steps) {
        return None;
    }
    Some(generate_from(model, tokenizer, tokens, steps, sampler, calc))
}

} // verus!
