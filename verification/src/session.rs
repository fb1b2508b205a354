//! The course of a generation: the model's configuration, the names of its weights, and how the
//! tokens and their positions go on from step to step.
use serde_json::Value;
use vstd::prelude::*;
use vstd::string::StringExecFns;

use crate::json::{as_usize, json_of, member, member_of, unsigned, whole_usize, Json};
use crate::text::push_char;

verus! {

/// How many positions the caches hold.
pub const MAX_SEQ_LEN: usize = 2048;

/// The tokens that end a text.
pub const END_OF_TEXT: usize = 151643;

/// The token that ends a turn.
pub const END_OF_TURN: usize = 151645;

/// The dimensions of a model.
#[derive(Debug, Clone, Copy, PartialEq, Eq)]
pub struct Config {
    pub layer_count: usize,
    pub hidden_dim: usize,
    pub num_attention_heads: usize,
    pub num_key_value_heads: usize,
    pub intermediate_size: usize,
    pub vocab_size: usize,
}

/// What is said where the number of layers is missing.
pub open spec fn no_layers() -> Seq<char> {
    "cannot get layer num"@
}

/// What is said where the size of a row is missing.
pub open spec fn no_hidden_size() -> Seq<char> {
    "cannot get hidden_size"@
}

/// What is said where another dimension is no integer.
pub open spec fn no_integer() -> Seq<char> {
    "cannot convert num to u64"@
}

/// What is said where the size of the vocabulary is missing.
pub open spec fn no_vocab_size() -> Seq<char> {
    "cannot get vocab"@
}

/// A configuration that a JSON value holds.
pub open spec fn holds_config(j: Json, c: Config) -> bool {
    &&& whole_usize(member_of(j, "num_hidden_layers"@)) == Some(c.layer_count)
    &&& whole_usize(member_of(j, "hidden_size"@)) == Some(c.hidden_dim)
    &&& integer_of(member_of(j, "num_attention_heads"@)) == Some(c.num_attention_heads)
    &&& integer_of(member_of(j, "num_key_value_heads"@)) == Some(c.num_key_value_heads)
    &&& integer_of(member_of(j, "intermediate_size"@)) == Some(c.intermediate_size)
    &&& integer_of(member_of(j, "vocab_size"@)) == Some(c.vocab_size)
}

/// An integer that is not negative, cut to a machine word.
pub open spec fn integer_of(j: Json) -> Option<usize> {
    match j {
        Json::Unsigned(n) => Some(n as usize),
        _ => None,
    }
}

/// Why a JSON value holds no configuration.
pub open spec fn config_fault(j: Json) -> Option<Seq<char>> {
    if whole_usize(member_of(j, "num_hidden_layers"@)) is None {
        Some(no_layers())
    } else if whole_usize(member_of(j, "hidden_size"@)) is None {
        Some(no_hidden_size())
    } else if integer_of(member_of(j, "num_attention_heads"@)) is None || integer_of(
        member_of(j, "num_key_value_heads"@),
    ) is None || integer_of(member_of(j, "intermediate_size"@)) is None {
        Some(no_integer())
    } else if integer_of(member_of(j, "vocab_size"@)) is None {
        Some(no_vocab_size())
    } else {
        None
    }
}

/// Each dimension is the number that stands under its own name.
pub proof fn law_config_by_name(
    j: Json,
    c: Config,
    layers: u32,
    hidden: u32,
    heads: u32,
    kv_heads: u32,
    inner: u32,
    vocab: u32,
)
    requires
        holds_config(j, c),
        member_of(j, "num_hidden_layers"@) == Json::Unsigned(layers as u64),
        member_of(j, "hidden_size"@) == Json::Unsigned(hidden as u64),
        member_of(j, "num_attention_heads"@) == Json::Unsigned(heads as u64),
        member_of(j, "num_key_value_heads"@) == Json::Unsigned(kv_heads as u64),
        member_of(j, "intermediate_size"@) == Json::Unsigned(inner as u64),
        member_of(j, "vocab_size"@) == Json::Unsigned(vocab as u64),
    ensures
        c.layer_count == layers,
        c.hidden_dim == hidden,
        c.num_attention_heads == heads,
        c.num_key_value_heads == kv_heads,
        c.intermediate_size == inner,
        c.vocab_size == vocab,
{
}

fn integer(v: &Value) -> (r: Option<usize>)
    ensures
        r == integer_of(json_of(*v)),
{
    match unsigned(v) {
        Some(n) => Some(n as usize),
        None => None,
    }
}

impl Config {
    /// Reads a configuration from a `config.json`.
    pub fn from_json(config: &Value) -> (r: Result<Config, String>)
        ensures
            match r {
                Ok(c) => config_fault(json_of(*config)) is None && holds_config(
                    json_of(*config),
                    c,
                ),
                Err(e) => config_fault(json_of(*config)) == Some(e@),
            },
    {
        let layer_count = match as_usize(member(config, "num_hidden_layers")) {
            Some(n) => n,
            None => {
                return Err("cannot get layer num".to_owned());
            },
        };
        let hidden_dim = match as_usize(member(config, "hidden_size")) {
            Some(n) => n,
            None => {
                return Err("cannot get hidden_size".to_owned());
            },
        };
        let num_attention_heads = match integer(member(config, "num_attention_heads")) {
            Some(n) => n,
            None => {
                return Err("cannot convert num to u64".to_owned());
            },
        };
        let num_key_value_heads = match integer(member(config, "num_key_value_heads")) {
            Some(n) => n,
            None => {
                return Err("cannot convert num to u64".to_owned());
            },
        };
        let intermediate_size = match integer(member(config, "intermediate_size")) {
            Some(n) => n,
            None => {
                return Err("cannot convert num to u64".to_owned());
            },
        };
        let vocab_size = match integer(member(config, "vocab_size")) {
            Some(n) => n,
            None => {
                return Err("cannot get vocab".to_owned());
            },
        };
        Ok(
            Config {
                layer_count,
                hidden_dim,
                num_attention_heads,
                num_key_value_heads,
                intermediate_size,
                vocab_size,
            },
        )
    }

    /// How many attention heads share a key-value head.
    pub fn kv_group(&self) -> (r: usize)
        requires
            self.num_key_value_heads > 0,
        ensures
            r == self.num_attention_heads / self.num_key_value_heads,
    {
        self.num_attention_heads / self.num_key_value_heads
    }

    /// How many elements an attention head takes.
    pub fn head_dim(&self) -> (r: usize)
        requires
            self.num_attention_heads > 0,
        ensures
            r == self.hidden_dim / self.num_attention_heads,
    {
        self.hidden_dim / self.num_attention_heads
    }
}

// ---- The names of the weights ----

/// The character of a decimal digit.
pub open spec fn digit(n: int) -> char {
    (48 + n) as char
}

/// A number in decimal digits.
pub open spec fn decimal(n: nat) -> Seq<char>
    decreases n,
{
    if n < 10 {
        seq![digit(n as int)]
    } else {
        decimal(n / 10).push(digit(n as int % 10))
    }
}

fn push_decimal(text: &mut String, n: usize)
    ensures
        final(text)@ == old(text)@ + decimal(n as nat),
    decreases n,
{
    if n >= 10 {
        push_decimal(text, n / 10);
    }
    push_char(text, (48 + (n % 10) as u8) as char);
    assert(text@ =~= old(text)@ + decimal(n as nat));
}

/// The name of a weight of a layer.
pub open spec fn layer_weight_name(layer: nat, part: Seq<char>) -> Seq<char> {
    "model.layers."@ + decimal(layer) + "."@ + part
}

/// The name of a weight of a layer.
pub fn layer_weight(layer: usize, part: &str) -> (r: String)
    ensures
        r@ == layer_weight_name(layer as nat, part@),
{
    let mut name = "model.layers.".to_owned();
    push_decimal(&mut name, layer);
    name.append(".");
    name.append(part);
    name
}

/// Weights of different layers have different names.
pub proof fn law_layer_names_differ(a: nat, b: nat, part: Seq<char>)
    requires
        a != b,
    ensures
        layer_weight_name(a, part) != layer_weight_name(b, part),
{
    let x = layer_weight_name(a, part);
    let y = layer_weight_name(b, part);
    if x == y {
        let n = "model.layers."@.len() as int;
        assert(x.len() == n + decimal(a).len() + "."@.len() + part.len());
        assert(y.len() == n + decimal(b).len() + "."@.len() + part.len());
        assert(x.subrange(n, n + decimal(a).len()) =~= decimal(a));
        assert(y.subrange(n, n + decimal(b).len()) =~= decimal(b));
        lemma_decimal_differs(a, b);
    }
}

proof fn lemma_decimal_differs(a: nat, b: nat)
    requires
        a != b,
    ensures
        decimal(a) != decimal(b),
    decreases a + b,
{
    lemma_decimal_len(a);
    lemma_decimal_len(b);
    let x = decimal(a);
    let y = decimal(b);
    if x == y {
        assert(x.last() == digit(a as int % 10));
        assert(y.last() == digit(b as int % 10));
        if a >= 10 && b >= 10 {
            assert(x.drop_last() =~= decimal(a / 10));
            assert(y.drop_last() =~= decimal(b / 10));
            if a / 10 != b / 10 {
                lemma_decimal_differs(a / 10, b / 10);
            }
        }
    }
}

proof fn lemma_decimal_len(n: nat)
    ensures
        decimal(n).len() >= 1,
        n >= 10 <==> decimal(n).len() >= 2,
    decreases n,
{
    if n >= 10 {
        lemma_decimal_len(n / 10);
    }
}

// ---- The steps ----

/// The tokens so far, those that the next step takes, and the position of the first of these.
pub struct Session {
    pub whole_token_list: Vec<usize>,
    pub current_token: Vec<usize>,
    pub current_pos: usize,
}

impl Session {
    /// The tokens that the next step takes are the last ones, and their position is how many stand
    /// before them. After the first step each step takes one token.
    pub open spec fn wf(self) -> bool {
        &&& self.whole_token_list@.len() == self.current_pos + self.current_token@.len()
        &&& self.whole_token_list@.skip(self.current_pos as int) == self.current_token@
        &&& self.current_pos > 0 ==> self.current_token@.len() == 1
    }

    /// A session that starts with these tokens.
    pub fn new(tokens: &Vec<usize>) -> (r: Session)
        ensures
            r.wf(),
            r.current_pos == 0,
            r.whole_token_list@ == tokens@,
            r.current_token@ == tokens@,
    {
        let mut whole_token_list: Vec<usize> = Vec::new();
        whole_token_list.extend_from_slice(tokens.as_slice());
        let mut current_token: Vec<usize> = Vec::new();
        current_token.extend_from_slice(tokens.as_slice());
        assert(whole_token_list@ =~= tokens@);
        assert(current_token@ =~= tokens@);
        assert(whole_token_list@.skip(0) =~= tokens@);
        Session { whole_token_list, current_token, current_pos: 0 }
    }

    /// Whether the caches are full, in which case a step passes over the layers.
    pub fn is_full(&self) -> (r: bool)
        ensures
            r == (self.current_pos >= MAX_SEQ_LEN),
    {
        self.current_pos >= MAX_SEQ_LEN
    }

    /// How many positions of the caches are filled after this step.
    pub fn valid_kv_len(&self) -> (r: usize)
        requires
            self.wf(),
        ensures
            r == self.current_pos + self.current_token@.len(),
            r == self.whole_token_list@.len(),
    {
        assert(self.whole_token_list.len() == self.whole_token_list@.len());
        self.current_pos + self.current_token.len()
    }

    /// The position up to which this step looks: that of its last token.
    pub fn attn_start_pos(&self) -> (r: usize)
        requires
            self.wf(),
            self.current_token@.len() > 0,
        ensures
            r == (if self.current_pos == 0 {
                self.current_token@.len() - 1
            } else {
                self.current_pos as int
            }),
            r == self.whole_token_list@.len() - 1,
    {
        if self.current_pos == 0 {
            self.current_token.len() - 1
        } else {
            self.current_pos
        }
    }

    /// Goes on with the token that was chosen. The answer is whether that token ends the text.
    pub fn advance(&mut self, next_token_id: usize) -> (r: bool)
        requires
            old(self).wf(),
            old(self).current_token@.len() > 0,
        ensures
            final(self).wf(),
            final(self).whole_token_list@ == old(self).whole_token_list@.push(next_token_id),
            final(self).current_token@ == seq![next_token_id],
            final(self).current_pos == old(self).current_pos + old(self).current_token@.len(),
            r == (next_token_id == END_OF_TEXT || next_token_id == END_OF_TURN),
    {
        let ghost before = self.whole_token_list@;
        assert(self.whole_token_list.len() == before.len());
        self.whole_token_list.push(next_token_id);
        self.current_pos += self.current_token.len();
        self.current_token = vec![next_token_id];
        assert(self.current_token@ =~= seq![next_token_id]);
        assert(self.whole_token_list@.skip(before.len() as int) =~= seq![next_token_id]);
        next_token_id == END_OF_TEXT || next_token_id == END_OF_TURN
    }
}

} // verus!
