//! Atomic decoding of workload and program documents.
use vstd::prelude::*;

use crate::json::{get, json_text, read_json_text, has_key, json_as_str, json_get, json_member, lemma_lookup_some, member, text_of, Json};
use crate::text::{is_identifier, is_identifier_bytes, parse_signed, parse_unsigned, signed_text, str_eq, unsigned_text};
use vstd::utf8::encode_utf8;

verus! {

/// Largest accepted document, in bytes.
pub const MAX_BYTES: usize = 1_048_576;
pub const MAX_PARAMETERS: usize = 128;
pub const MAX_BLOCKS: usize = 10_000;
pub const MAX_INSTANCES: usize = 10_000;
pub const MAX_REPEAT_DEPTH: usize = 64;
/// Deepest bracket nesting that the byte scan lets through to the JSON reader.
pub const MAX_NESTING: usize = 160;

#[derive(Debug, Clone, Copy, PartialEq, Eq, Structural)]
pub enum InputError {
    InvalidCommand,
    ResourceLimit,
    UnsupportedSchema,
    UnsupportedModel,
    UnsupportedEngine,
    UnsupportedRandomAlgorithm,
}

#[derive(Debug, Clone, Copy, PartialEq, Eq, Structural)]
pub enum PolicyConfig {
    Fcfs,
    RoundRobin { quantum: u64 },
}

pub open spec fn quantum_of(p: PolicyConfig) -> Option<u64> {
    match p {
        PolicyConfig::Fcfs => None,
        PolicyConfig::RoundRobin { quantum } => if quantum == 0 { None } else { Some(quantum) },
    }
}

impl PolicyConfig {
    /// The time slice of a round-robin configuration; `None` for FCFS (and for a zero slice).
    pub fn quantum(&self) -> (r: Option<u64>)
        ensures
            r == quantum_of(*self),
    {
        match self {
            PolicyConfig::Fcfs => None,
            PolicyConfig::RoundRobin { quantum } => if *quantum == 0 { None } else { Some(*quantum) },
        }
    }
}

#[derive(Debug)]
pub enum Operand {
    Literal(u64),
    Parameter(String),
}

#[derive(Debug)]
pub enum Op {
    Compute(Operand),
    Io(Operand),
    Yield,
    Repeat { count: Operand, after: usize },
    RepeatNext { start: usize },
    End,
}

#[derive(Debug)]
pub struct Instruction {
    pub id: String,
    pub op: Op,
}

/// A declared program parameter: identifier, inclusive range and default.
#[derive(Debug)]
pub struct Parameter {
    pub id: String,
    pub minimum: i64,
    pub default: i64,
    pub maximum: i64,
}

pub fn copy_operand(o: &Operand) -> (r: Operand)
    ensures
        r == *o,
{
    match o {
        Operand::Literal(n) => Operand::Literal(*n),
        Operand::Parameter(p) => Operand::Parameter(p.clone()),
    }
}

pub open spec fn object_ok(v: Json, keys: Seq<Seq<char>>) -> bool {
    match v {
        Json::Object(m) => m@.len() == keys.len() && forall|k: int|
            0 <= k < keys.len() ==> has_key(m@, #[trigger] keys[k]),
        _ => false,
    }
}

pub open spec fn keys_of(keys: Seq<&str>) -> Seq<Seq<char>> {
    keys.map_values(|k: &str| k@)
}

/// `object`: `v` is an object whose keys are exactly `keys`.
pub fn object(v: &Json, keys: &[&str]) -> (r: Result<(), InputError>)
    ensures
        r == (if object_ok(*v, keys_of(keys@)) { Ok::<(), InputError>(()) } else { Err(InputError::InvalidCommand) }),
{
    match v {
        Json::Object(m) => {
            if m.len() != keys.len() {
                return Err(InputError::InvalidCommand);
            }
            let mut k: usize = 0;
            while k < keys.len()
                invariant
                    0 <= k <= keys@.len(),
                    *v == Json::Object(*m),
                    forall|j: int| 0 <= j < k ==> has_key(m@, #[trigger] keys_of(keys@)[j]),
                decreases keys@.len() - k,
            {
                let found = json_get(v, keys[k]);
                proof {
                    lemma_lookup_some(m@, keys@[k as int]@);
                }
                assert(keys_of(keys@)[k as int] == keys@[k as int]@);
                if found.is_none() {
                    assert(!has_key(m@, keys_of(keys@)[k as int]));
                    return Err(InputError::InvalidCommand);
                }
                k = k + 1;
            }
            Ok(())
        },
        _ => Err(InputError::InvalidCommand),
    }
}

pub open spec fn spec_array(v: Json, minimum: nat, maximum: nat) -> Result<Seq<Json>, InputError> {
    match v {
        Json::Array(a) => if a@.len() > maximum {
            Err(InputError::ResourceLimit)
        } else if a@.len() < minimum {
            Err(InputError::InvalidCommand)
        } else {
            Ok(a@)
        },
        _ => Err(InputError::InvalidCommand),
    }
}

/// `array`: `v` is an array with between `minimum` and `maximum` items.
pub fn array(v: &Json, minimum: usize, maximum: usize) -> (r: Result<&Vec<Json>, InputError>)
    ensures
        match spec_array(*v, minimum as nat, maximum as nat) {
            Ok(items) => r matches Ok(a) && a@ == items,
            Err(e) => r == Err::<&Vec<Json>, InputError>(e),
        },
{
    match v {
        Json::Array(a) => if a.len() > maximum {
            Err(InputError::ResourceLimit)
        } else if a.len() < minimum {
            Err(InputError::InvalidCommand)
        } else {
            Ok(a)
        },
        _ => Err(InputError::InvalidCommand),
    }
}

pub open spec fn spec_id(v: Json) -> Result<String, InputError> {
    match v {
        Json::Str(s) => if is_identifier(encode_utf8(s@)) {
            Ok(s)
        } else {
            Err(InputError::InvalidCommand)
        },
        _ => Err(InputError::InvalidCommand),
    }
}

/// `id`: `v` is a string that follows the identifier rule.
pub fn id(v: &Json) -> (r: Result<String, InputError>)
    ensures
        r == spec_id(*v),
{
    match v {
        Json::Str(s) => {
            let b = s.as_str().as_bytes();
            if is_identifier_bytes(b) {
                Ok(s.clone())
            } else {
                Err(InputError::InvalidCommand)
            }
        },
        _ => Err(InputError::InvalidCommand),
    }
}

pub open spec fn spec_unsigned(v: Json, positive: bool) -> Result<u64, InputError> {
    match v {
        Json::Str(s) => match unsigned_text(encode_utf8(s@)) {
            Some(n) => if positive && n == 0 {
                Err(InputError::InvalidCommand)
            } else {
                Ok(n)
            },
            None => Err(InputError::InvalidCommand),
        },
        _ => Err(InputError::InvalidCommand),
    }
}

/// `unsigned`: `v` is canonical decimal text of a `u64` (nonzero when `positive`).
pub fn unsigned(v: &Json, positive: bool) -> (r: Result<u64, InputError>)
    ensures
        r == spec_unsigned(*v, positive),
{
    match v {
        Json::Str(s) => match parse_unsigned(s.as_str().as_bytes()) {
            Some(n) => if positive && n == 0 {
                Err(InputError::InvalidCommand)
            } else {
                Ok(n)
            },
            None => Err(InputError::InvalidCommand),
        },
        _ => Err(InputError::InvalidCommand),
    }
}

pub open spec fn spec_signed(v: Json) -> Result<i64, InputError> {
    match v {
        Json::Str(s) => match signed_text(encode_utf8(s@)) {
            Some(n) => Ok(n),
            None => Err(InputError::InvalidCommand),
        },
        _ => Err(InputError::InvalidCommand),
    }
}

/// `signed`: `v` is canonical signed decimal text of an `i64`.
pub fn signed(v: &Json) -> (r: Result<i64, InputError>)
    ensures
        r == spec_signed(*v),
{
    match v {
        Json::Str(s) => match parse_signed(s.as_str().as_bytes()) {
            Some(n) => Ok(n),
            None => Err(InputError::InvalidCommand),
        },
        _ => Err(InputError::InvalidCommand),
    }
}

pub open spec fn spec_version(v: Json, expected: Seq<char>, error: InputError) -> Result<(), InputError> {
    match text_of(v) {
        None => Err(InputError::InvalidCommand),
        Some(t) => if t == expected { Ok(()) } else { Err(error) },
    }
}

/// `version`: `v` is a string; unequal to `expected` it gives `error`.
pub fn version(v: &Json, expected: &str, error: InputError) -> (r: Result<(), InputError>)
    ensures
        r == spec_version(*v, expected@, error),
{
    match json_as_str(v) {
        None => Err(InputError::InvalidCommand),
        Some(t) => if str_eq(t, expected) { Ok(()) } else { Err(error) },
    }
}

pub open spec fn spec_operand(v: Json) -> Result<Operand, InputError> {
    if get(v, "literal"@) is Some {
        if !object_ok(v, seq!["literal"@]) {
            Err(InputError::InvalidCommand)
        } else {
            match spec_unsigned(member(v, "literal"@), true) {
                Ok(n) => Ok(Operand::Literal(n)),
                Err(e) => Err(e),
            }
        }
    } else {
        if !object_ok(v, seq!["parameter"@]) {
            Err(InputError::InvalidCommand)
        } else {
            match spec_id(member(v, "parameter"@)) {
                Ok(p) => Ok(Operand::Parameter(p)),
                Err(e) => Err(e),
            }
        }
    }
}

/// `operand`: `{"literal": <positive u64 text>}` or `{"parameter": <identifier>}`.
pub fn operand(v: &Json) -> (r: Result<Operand, InputError>)
    ensures
        r == spec_operand(*v),
{
    if json_get(v, "literal").is_some() {
        let keys = ["literal"];
        assert(keys_of(keys@) =~= seq!["literal"@]);
        object(v, &keys)?;
        let n = unsigned(json_member(v, "literal"), true)?;
        Ok(Operand::Literal(n))
    } else {
        let keys = ["parameter"];
        assert(keys_of(keys@) =~= seq!["parameter"@]);
        object(v, &keys)?;
        let p = id(json_member(v, "parameter"))?;
        Ok(Operand::Parameter(p))
    }
}

pub open spec fn contains_text(ids: Seq<String>, s: Seq<char>) -> bool {
    exists|k: int| 0 <= k < ids.len() && #[trigger] ids[k]@ == s
}

/// Whether some string of `ids` has the text of `s`.
pub fn contains_string(ids: &Vec<String>, s: &String) -> (r: bool)
    ensures
        r == contains_text(ids@, s@),
{
    let mut k: usize = 0;
    while k < ids.len()
        invariant
            0 <= k <= ids@.len(),
            forall|j: int| 0 <= j < k ==> #[trigger] ids@[j]@ != s@,
        decreases ids@.len() - k,
    {
        if ids[k] == *s {
            return true;
        }
        k = k + 1;
    }
    false
}

pub open spec fn op_name(b: Json) -> Option<Seq<char>> {
    match get(b, "op"@) {
        Some(o) => text_of(o),
        None => None,
    }
}

pub open spec fn min_blocks(depth: int) -> nat {
    if depth == 0 { 1 } else { 0 }
}

/// The block list `v` at repeat depth `depth`, appended to `code` with the block
/// identifiers added to `ids`; the flag tells whether the list ends the program.
pub open spec fn spec_blocks(v: Json, depth: int, code: Seq<Instruction>, ids: Seq<String>) -> Result<
    (Seq<Instruction>, Seq<String>, bool),
    InputError,
> {
    if depth > MAX_REPEAT_DEPTH {
        Err(InputError::ResourceLimit)
    } else {
        match spec_array(v, min_blocks(depth), MAX_BLOCKS as nat) {
            Err(e) => Err(e),
            Ok(list) => spec_block_items(list, 0, depth, code, ids, false),
        }
    }
}

/// Blocks `list[i..]` of one list, after the earlier ones produced `code`, `ids` and `ends`.
pub open spec fn spec_block_items(
    list: Seq<Json>,
    i: int,
    depth: int,
    code: Seq<Instruction>,
    ids: Seq<String>,
    ends: bool,
) -> Result<(Seq<Instruction>, Seq<String>, bool), InputError>
    decreases MAX_REPEAT_DEPTH + 1 - depth, list.len() - i, 1int,
{
    if i < 0 || i >= list.len() {
        Ok((code, ids, ends))
    } else if ends {
        Err(InputError::InvalidCommand)
    } else {
        match spec_block_step(list, i, depth, code, ids) {
            Err(e) => Err(e),
            Ok((code2, ids2, ends2)) => spec_block_items(list, i + 1, depth, code2, ids2, ends2),
        }
    }
}

/// Block `list[i]`, appended to `code` with its identifier added to `ids`; the flag
/// tells whether it ends its list.
pub open spec fn spec_block_step(
    list: Seq<Json>,
    i: int,
    depth: int,
    code: Seq<Instruction>,
    ids: Seq<String>,
) -> Result<(Seq<Instruction>, Seq<String>, bool), InputError>
    decreases MAX_REPEAT_DEPTH + 1 - depth, list.len() - i, 0int,
{
    if i < 0 || i >= list.len() {
        Err(InputError::InvalidCommand)
    } else {
        let b = list[i];
        match get(b, "blockId"@) {
            None => Err(InputError::InvalidCommand),
            Some(bid) => match spec_id(bid) {
                Err(e) => Err(e),
                Ok(block_id) => if contains_text(ids, block_id@) {
                    Err(InputError::InvalidCommand)
                } else if ids.len() + 1 > MAX_BLOCKS {
                    Err(InputError::ResourceLimit)
                } else {
                    let ids2 = ids.push(block_id);
                    match op_name(b) {
                        None => Err(InputError::InvalidCommand),
                        Some(op) => if op == "compute"@ || op == "ioWait"@ {
                            if !object_ok(b, seq!["blockId"@, "op"@, "duration"@]) {
                                Err(InputError::InvalidCommand)
                            } else {
                                match spec_operand(member(b, "duration"@)) {
                                    Err(e) => Err(e),
                                    Ok(o) => {
                                        let ins = Instruction {
                                            id: block_id,
                                            op: if op == "compute"@ { Op::Compute(o) } else { Op::Io(o) },
                                        };
                                        Ok((code.push(ins), ids2, false))
                                    },
                                }
                            }
                        } else if op == "yield"@ || op == "end"@ {
                            if !object_ok(b, seq!["blockId"@, "op"@]) {
                                Err(InputError::InvalidCommand)
                            } else {
                                let ins = Instruction {
                                    id: block_id,
                                    op: if op == "end"@ { Op::End } else { Op::Yield },
                                };
                                Ok((code.push(ins), ids2, op == "end"@))
                            }
                        } else if op == "repeat"@ {
                            if !object_ok(b, seq!["blockId"@, "op"@, "count"@, "body"@]) {
                                Err(InputError::InvalidCommand)
                            } else {
                                match spec_operand(member(b, "count"@)) {
                                    Err(e) => Err(e),
                                    Ok(count) => {
                                        let start = code.len();
                                        let code1 = code.push(
                                            Instruction { id: block_id, op: Op::Repeat { count, after: 0 } },
                                        );
                                        if depth + 1 > MAX_REPEAT_DEPTH {
                                            Err(InputError::ResourceLimit)
                                        } else {
                                            match spec_array(member(b, "body"@), 0, MAX_BLOCKS as nat) {
                                                Err(e) => Err(e),
                                                Ok(body) => match spec_block_items(body, 0, depth + 1, code1, ids2, false) {
                                                    Err(e) => Err(e),
                                                    Ok((code2, ids3, ends2)) => {
                                                        let code3 = code2.push(
                                                            Instruction { id: block_id, op: Op::RepeatNext { start: start as usize } },
                                                        ).update(
                                                            start as int,
                                                            Instruction {
                                                                id: block_id,
                                                                op: Op::Repeat { count, after: (code2.len() + 1) as usize },
                                                            },
                                                        );
                                                        Ok((code3, ids3, ends2))
                                                    },
                                                },
                                            }
                                        }
                                    },
                                }
                            }
                        } else {
                            Err(InputError::InvalidCommand)
                        },
                    }
                },
            },
        }
    }
}

fn op_text(b: &Json) -> (r: Option<&str>)
    ensures
        r is Some <==> op_name(*b) is Some,
        r matches Some(t) ==> op_name(*b) == Some(t@),
{
    match json_get(b, "op") {
        Some(o) => json_as_str(o),
        None => None,
    }
}

/// `blocks`: decodes the block list `v` at repeat depth `depth` into `code`.
fn blocks(v: &Json, depth: usize, code: &mut Vec<Instruction>, ids: &mut Vec<String>) -> (r: Result<
    bool,
    InputError,
>)
    requires
        depth <= MAX_REPEAT_DEPTH + 1,
    ensures
        match spec_blocks(*v, depth as int, old(code)@, old(ids)@) {
            Ok((c, i, e)) => r == Ok::<bool, InputError>(e) && final(code)@ == c && final(ids)@ == i,
            Err(e) => r == Err::<bool, InputError>(e),
        },
        old(code)@.len() <= final(code)@.len(),
    decreases MAX_REPEAT_DEPTH + 1 - depth, 1int,
{
    if depth > MAX_REPEAT_DEPTH {
        return Err(InputError::ResourceLimit);
    }
    let list = array(v, if depth == 0 { 1 } else { 0 }, MAX_BLOCKS)?;
    let mut ends = false;
    let mut i: usize = 0;
    while i < list.len()
        invariant
            0 <= i <= list@.len(),
            depth <= MAX_REPEAT_DEPTH,
            old(code)@.len() <= code@.len(),
            spec_blocks(*v, depth as int, old(code)@, old(ids)@) == spec_block_items(
                list@,
                i as int,
                depth as int,
                code@,
                ids@,
                ends,
            ),
        decreases list@.len() - i,
    {
        if ends {
            return Err(InputError::InvalidCommand);
        }
        ends = block_step(list, i, depth, code, ids)?;
        i = i + 1;
    }
    Ok(ends)
}

/// Decodes block `list[i]` at repeat depth `depth` into `code`.
fn block_step(list: &Vec<Json>, i: usize, depth: usize, code: &mut Vec<Instruction>, ids: &mut Vec<String>) -> (r: Result<
    bool,
    InputError,
>)
    requires
        depth <= MAX_REPEAT_DEPTH,
        i < list@.len(),
    ensures
        match spec_block_step(list@, i as int, depth as int, old(code)@, old(ids)@) {
            Ok((c, d, e)) => r == Ok::<bool, InputError>(e) && final(code)@ == c && final(ids)@ == d,
            Err(e) => r == Err::<bool, InputError>(e),
        },
        old(code)@.len() <= final(code)@.len(),
    decreases MAX_REPEAT_DEPTH + 1 - depth, 0int,
{
    let b = &list[i];
    let bid = match json_get(b, "blockId") {
        Some(x) => x,
        None => {
            return Err(InputError::InvalidCommand);
        },
    };
    let block_id = id(bid)?;
    if contains_string(ids, &block_id) {
        return Err(InputError::InvalidCommand);
    }
    if ids.len() >= MAX_BLOCKS {
        return Err(InputError::ResourceLimit);
    }
    ids.push(block_id.clone());
    let op = match op_text(b) {
        Some(t) => t,
        None => {
            return Err(InputError::InvalidCommand);
        },
    };
    if str_eq(op, "compute") || str_eq(op, "ioWait") {
        let keys = ["blockId", "op", "duration"];
        assert(keys_of(keys@) =~= seq!["blockId"@, "op"@, "duration"@]);
        object(b, &keys)?;
        let o = operand(json_member(b, "duration"))?;
        let ins = Instruction {
            id: block_id,
            op: if str_eq(op, "compute") { Op::Compute(o) } else { Op::Io(o) },
        };
        code.push(ins);
        Ok(false)
    } else if str_eq(op, "yield") || str_eq(op, "end") {
        let keys = ["blockId", "op"];
        assert(keys_of(keys@) =~= seq!["blockId"@, "op"@]);
        object(b, &keys)?;
        let is_end = str_eq(op, "end");
        let ins = Instruction { id: block_id, op: if is_end { Op::End } else { Op::Yield } };
        code.push(ins);
        Ok(is_end)
    } else if str_eq(op, "repeat") {
        let keys = ["blockId", "op", "count", "body"];
        assert(keys_of(keys@) =~= seq!["blockId"@, "op"@, "count"@, "body"@]);
        object(b, &keys)?;
        let count = operand(json_member(b, "count"))?;
        let start = code.len();
        code.push(Instruction { id: block_id.clone(), op: Op::Repeat { count: copy_operand(&count), after: 0 } });
        let body_ends = blocks(json_member(b, "body"), depth + 1, code, ids)?;
        code.push(Instruction { id: block_id.clone(), op: Op::RepeatNext { start } });
        let after = code.len();
        code.set(start, Instruction { id: block_id, op: Op::Repeat { count, after } });
        Ok(body_ends)
    } else {
        Err(InputError::InvalidCommand)
    }
}

pub open spec fn param_declared(ps: Seq<Parameter>, s: Seq<char>) -> bool {
    exists|k: int| 0 <= k < ps.len() && #[trigger] ps[k].id@ == s
}

/// One parameter declaration, before the uniqueness check.
pub open spec fn spec_param(p: Json) -> Result<Parameter, InputError> {
    if !object_ok(p, seq!["id"@, "minimum"@, "default"@, "maximum"@]) {
        Err(InputError::InvalidCommand)
    } else {
        match spec_signed(member(p, "minimum"@)) {
            Err(e) => Err(e),
            Ok(lo) => match spec_signed(member(p, "default"@)) {
                Err(e) => Err(e),
                Ok(d) => match spec_signed(member(p, "maximum"@)) {
                    Err(e) => Err(e),
                    Ok(hi) => if lo > d || d > hi {
                        Err(InputError::InvalidCommand)
                    } else {
                        match spec_id(member(p, "id"@)) {
                            Err(e) => Err(e),
                            Ok(pid) => Ok(Parameter { id: pid, minimum: lo, default: d, maximum: hi }),
                        }
                    },
                },
            },
        }
    }
}

/// Parameter declarations `list[i..]`, after the earlier ones produced `acc`.
pub open spec fn spec_params(list: Seq<Json>, i: int, acc: Seq<Parameter>) -> Result<Seq<Parameter>, InputError>
    decreases list.len() - i,
{
    if i < 0 || i >= list.len() {
        Ok(acc)
    } else {
        match spec_param(list[i]) {
            Err(e) => Err(e),
            Ok(p) => if param_declared(acc, p.id@) {
                Err(InputError::InvalidCommand)
            } else {
                spec_params(list, i + 1, acc.push(p))
            },
        }
    }
}

#[verifier::spinoff_prover]
#[verifier::rlimit(80)]
fn param_decl(p: &Json) -> (r: Result<Parameter, InputError>)
    ensures
        r == spec_param(*p),
{
    let keys = ["id", "minimum", "default", "maximum"];
    assert(keys_of(keys@) =~= seq!["id"@, "minimum"@, "default"@, "maximum"@]);
    object(p, &keys)?;
    let lo = signed(json_member(p, "minimum"))?;
    let d = signed(json_member(p, "default"))?;
    let hi = signed(json_member(p, "maximum"))?;
    if lo > d || d > hi {
        return Err(InputError::InvalidCommand);
    }
    let pid = id(json_member(p, "id"))?;
    Ok(Parameter { id: pid, minimum: lo, default: d, maximum: hi })
}

fn is_declared(acc: &Vec<Parameter>, pid: &String) -> (r: bool)
    ensures
        r == param_declared(acc@, pid@),
{
    let mut k: usize = 0;
    while k < acc.len()
        invariant
            0 <= k <= acc@.len(),
            forall|j: int| 0 <= j < k ==> #[trigger] acc@[j].id@ != pid@,
        decreases acc@.len() - k,
    {
        if acc[k].id == *pid {
            assert(acc@[k as int].id@ == pid@);
            return true;
        }
        k = k + 1;
    }
    false
}

fn params(list: &Vec<Json>) -> (r: Result<Vec<Parameter>, InputError>)
    ensures
        match spec_params(list@, 0, seq![]) {
            Ok(ps) => r matches Ok(v) && v@ == ps,
            Err(e) => r matches Err(x) && x == e,
        },
{
    let mut acc: Vec<Parameter> = Vec::new();
    let mut i: usize = 0;
    while i < list.len()
        invariant
            0 <= i <= list@.len(),
            spec_params(list@, 0, seq![]) == spec_params(list@, i as int, acc@),
        decreases list@.len() - i,
    {
        let p = param_decl(&list[i])?;
        if is_declared(&acc, &p.id) {
            return Err(InputError::InvalidCommand);
        }
        acc.push(p);
        i = i + 1;
    }
    Ok(acc)
}

/// The value of the binding named `key`, the first one if several.
pub open spec fn binding(params: Seq<(String, i64)>, key: Seq<char>) -> Option<i64>
    decreases params.len(),
{
    if params.len() == 0 {
        None
    } else if params[0].0@ == key {
        Some(params[0].1)
    } else {
        binding(params.drop_first(), key)
    }
}

pub fn find_binding(params: &Vec<(String, i64)>, key: &String) -> (r: Option<i64>)
    ensures
        r == binding(params@, key@),
{
    let mut k: usize = 0;
    assert(params@.skip(0) =~= params@);
    while k < params.len()
        invariant
            0 <= k <= params@.len(),
            binding(params@, key@) == binding(params@.skip(k as int), key@),
        decreases params@.len() - k,
    {
        assert(params@.skip(k as int).drop_first() =~= params@.skip(k + 1));
        assert(params@.skip(k as int)[0] == params@[k as int]);
        if params[k].0 == *key {
            return Some(params[k].1);
        }
        k = k + 1;
    }
    None
}

pub open spec fn operand_of(op: Op) -> Option<Operand> {
    match op {
        Op::Compute(o) => Some(o),
        Op::Io(o) => Some(o),
        Op::Repeat { count, .. } => Some(count),
        _ => None,
    }
}

/// Every parameter operand of `code` is bound in `params` to a positive value.
pub open spec fn operands_bound(code: Seq<Instruction>, params: Seq<(String, i64)>) -> bool {
    forall|k: int|
        0 <= k < code.len() ==> match #[trigger] operand_of(code[k].op) {
            Some(Operand::Parameter(p)) => binding(params, p@) matches Some(v) && v > 0,
            _ => true,
        }
}

/// Every parameter operand of `code` names a parameter bound in `params` to a positive
/// value; otherwise the program is rejected as an invalid command.
pub fn check_operands(code: &Vec<Instruction>, params: &Vec<(String, i64)>) -> (r: Result<(), InputError>)
    ensures
        r == (if operands_bound(code@, params@) { Ok::<(), InputError>(()) } else { Err(InputError::InvalidCommand) }),
{
    let mut k: usize = 0;
    while k < code.len()
        invariant
            0 <= k <= code@.len(),
            forall|j: int|
                0 <= j < k ==> match #[trigger] operand_of(code@[j].op) {
                    Some(Operand::Parameter(p)) => binding(params@, p@) matches Some(v) && v > 0,
                    _ => true,
                },
        decreases code@.len() - k,
    {
        let o = match &code[k].op {
            Op::Compute(o) => Some(o),
            Op::Io(o) => Some(o),
            Op::Repeat { count, .. } => Some(count),
            _ => None,
        };
        if let Some(Operand::Parameter(p)) = o {
            match find_binding(params, p) {
                Some(v) => if v <= 0 {
                    assert(!operands_bound(code@, params@)) by {
                        assert(operand_of(code@[k as int].op) == Some(Operand::Parameter(*p)));
                    }
                    return Err(InputError::InvalidCommand);
                },
                None => {
                    assert(!operands_bound(code@, params@)) by {
                        assert(operand_of(code@[k as int].op) == Some(Operand::Parameter(*p)));
                    }
                    return Err(InputError::InvalidCommand);
                },
            }
        }
        k = k + 1;
    }
    Ok(())
}

pub open spec fn defaults(ps: Seq<Parameter>) -> Seq<(String, i64)> {
    ps.map_values(|p: Parameter| (p.id, p.default))
}

fn default_bindings(ps: &Vec<Parameter>) -> (r: Vec<(String, i64)>)
    ensures
        r@ == defaults(ps@),
{
    let mut out: Vec<(String, i64)> = Vec::new();
    let mut k: usize = 0;
    while k < ps.len()
        invariant
            0 <= k <= ps@.len(),
            out@ =~= defaults(ps@).take(k as int),
        decreases ps@.len() - k,
    {
        out.push((ps[k].id.clone(), ps[k].default));
        k = k + 1;
    }
    out
}

/// A validated program.
#[derive(Debug)]
pub struct Program {
    pub(crate) id: String,
    pub(crate) instructions: Vec<Instruction>,
    pub(crate) parameters: Vec<Parameter>,
}

/// What a program holds.
pub struct ProgramModel {
    pub id: String,
    pub instructions: Seq<Instruction>,
    pub parameters: Seq<Parameter>,
}

impl View for Program {
    type V = ProgramModel;

    closed spec fn view(&self) -> ProgramModel {
        ProgramModel { id: self.id, instructions: self.instructions@, parameters: self.parameters@ }
    }
}

pub open spec fn program_fields() -> Seq<Seq<char>> {
    seq!["schemaVersion"@, "programId"@, "name"@, "parameters"@, "blocks"@]
}

/// Decoding of a program object; the schema version is checked only when `check_version`.
#[verifier::opaque]
pub open spec fn spec_program(v: Json, check_version: bool) -> Result<ProgramModel, InputError> {
    if !object_ok(v, program_fields()) {
        Err(InputError::InvalidCommand)
    } else {
        match text_of(member(v, "name"@)) {
            None => Err(InputError::InvalidCommand),
            Some(name) => if !(1 <= name.len() <= 128) {
                Err(InputError::InvalidCommand)
            } else {
                match spec_array(member(v, "parameters"@), 0, MAX_PARAMETERS as nat) {
                    Err(e) => Err(e),
                    Ok(plist) => match spec_params(plist, 0, seq![]) {
                        Err(e) => Err(e),
                        Ok(ps) => match spec_blocks(member(v, "blocks"@), 0, seq![], seq![]) {
                            Err(e) => Err(e),
                            Ok((code, _ids, ends)) => if !ends {
                                Err(InputError::InvalidCommand)
                            } else if !operands_bound(code, defaults(ps)) {
                                Err(InputError::InvalidCommand)
                            } else if text_of(member(v, "schemaVersion"@)) is None {
                                Err(InputError::InvalidCommand)
                            } else if check_version && text_of(member(v, "schemaVersion"@)) != Some(
                                "os-lab-program/1"@,
                            ) {
                                Err(InputError::UnsupportedSchema)
                            } else {
                                match spec_id(member(v, "programId"@)) {
                                    Err(e) => Err(e),
                                    Ok(pid) => Ok(ProgramModel { id: pid, instructions: code, parameters: ps }),
                                }
                            },
                        },
                    },
                }
            },
        }
    }
}

pub open spec fn program_result(r: Result<Program, InputError>) -> Result<ProgramModel, InputError> {
    match r {
        Ok(p) => Ok(p@),
        Err(e) => Err(e),
    }
}

/// The number of characters of `s`, counted up to `limit + 1`.
pub fn char_count_upto(s: &str, limit: usize) -> (n: usize)
    requires
        limit < usize::MAX,
    ensures
        n == (if s@.len() <= limit { s@.len() } else { limit as nat + 1 }),
{
    broadcast use vstd::string::group_string_axioms;
    let mut n: usize = 0;
    for c in it: s.chars()
        invariant
            n == it.index(),
            n <= limit,
            limit < usize::MAX,
            it.seq() == s@,
    {
        if n == limit {
            return limit + 1;
        }
        n = n + 1;
    }
    n
}

impl Program {
    /// Decodes a program document.
    pub fn decode(bytes: &[u8]) -> (r: Result<Program, InputError>)
        ensures
            program_result(r) == (match spec_parse(bytes@) {
                Ok(v) => spec_program(v, true),
                Err(e) => Err(e),
            }),
    {
        let v = parse(bytes)?;
        Program::from_value(&v, true)
    }

    /// Decodes a program object.
    pub fn from_value(v: &Json, check_version: bool) -> (r: Result<Program, InputError>)
        ensures
            program_result(r) == spec_program(*v, check_version),
    {
        reveal(spec_program);
        let keys = ["schemaVersion", "programId", "name", "parameters", "blocks"];
        assert(keys_of(keys@) =~= program_fields());
        object(v, &keys)?;
        let name = match json_as_str(json_member(v, "name")) {
            Some(t) => t,
            None => {
                return Err(InputError::InvalidCommand);
            },
        };
        let n = char_count_upto(name, 128);
        if !(1 <= n && n <= 128) {
            return Err(InputError::InvalidCommand);
        }
        let plist = array(json_member(v, "parameters"), 0, MAX_PARAMETERS)?;
        let parameters = params(plist)?;
        let mut instructions: Vec<Instruction> = Vec::new();
        let mut ids: Vec<String> = Vec::new();
        if !blocks(json_member(v, "blocks"), 0, &mut instructions, &mut ids)? {
            return Err(InputError::InvalidCommand);
        }
        let bindings = default_bindings(&parameters);
        check_operands(&instructions, &bindings)?;
        if json_as_str(json_member(v, "schemaVersion")).is_none() {
            return Err(InputError::InvalidCommand);
        }
        if check_version {
            version(json_member(v, "schemaVersion"), "os-lab-program/1", InputError::UnsupportedSchema)?;
        }
        let pid = id(json_member(v, "programId"))?;
        Ok(Program { id: pid, instructions, parameters })
    }
}

/// Bracket-depth scanner state: depth, inside a string, after a backslash in a string.
pub type ScanState = (nat, bool, bool);

pub open spec fn scan_step(st: ScanState, b: u8) -> Option<ScanState> {
    let (depth, string, escaped) = st;
    if string {
        if escaped {
            Some((depth, true, false))
        } else if b == 92 {
            Some((depth, true, true))
        } else if b == 34 {
            Some((depth, false, false))
        } else {
            Some(st)
        }
    } else if b == 34 {
        Some((depth, true, escaped))
    } else if b == 123 || b == 91 {
        if depth + 1 > MAX_NESTING { None } else { Some(((depth + 1) as nat, false, escaped)) }
    } else if b == 125 || b == 93 {
        Some((if depth == 0 { 0 } else { (depth - 1) as nat }, false, escaped))
    } else {
        Some(st)
    }
}

/// The scanner state after `bytes`, or `None` once an opening bracket outside
/// strings goes past the nesting bound.
pub open spec fn scan(bytes: Seq<u8>) -> Option<ScanState>
    decreases bytes.len(),
{
    if bytes.len() == 0 {
        Some((0, false, false))
    } else {
        match scan(bytes.drop_last()) {
            None => None,
            Some(st) => scan_step(st, bytes.last()),
        }
    }
}

/// `parse`: size bound, nesting bound, then serde_json's reading of the bytes.
pub open spec fn spec_parse(bytes: Seq<u8>) -> Result<Json, InputError> {
    if bytes.len() > MAX_BYTES {
        Err(InputError::ResourceLimit)
    } else if scan(bytes) is None {
        Err(InputError::ResourceLimit)
    } else {
        match json_text(bytes) {
            Some(v) => Ok(v),
            None => Err(InputError::InvalidCommand),
        }
    }
}

proof fn lemma_scan_none_sticks(bytes: Seq<u8>, i: int)
    requires
        0 <= i <= bytes.len(),
        scan(bytes.take(i)) is None,
    ensures
        scan(bytes) is None,
    decreases bytes.len() - i,
{
    if i < bytes.len() {
        assert(bytes.take(i + 1).drop_last() =~= bytes.take(i));
        lemma_scan_none_sticks(bytes, i + 1);
    } else {
        assert(bytes.take(i) =~= bytes);
    }
}

/// Reads a JSON document from bytes.
pub fn parse(bytes: &[u8]) -> (r: Result<Json, InputError>)
    ensures
        r == spec_parse(bytes@),
{
    if bytes.len() > MAX_BYTES {
        return Err(InputError::ResourceLimit);
    }
    let mut depth: usize = 0;
    let mut string = false;
    let mut escaped = false;
    let mut i: usize = 0;
    while i < bytes.len()
        invariant
            0 <= i <= bytes@.len(),
            bytes@.len() <= MAX_BYTES,
            depth <= MAX_NESTING,
            scan(bytes@.take(i as int)) == Some((depth as nat, string, escaped)),
        decreases bytes@.len() - i,
    {
        assert(bytes@.take(i + 1).drop_last() =~= bytes@.take(i as int));
        let b = bytes[i];
        if string {
            if escaped {
                escaped = false;
            } else if b == 92 {
                escaped = true;
            } else if b == 34 {
                string = false;
            }
        } else {
            if b == 34 {
                string = true;
            } else if b == 123 || b == 91 {
                if depth + 1 > MAX_NESTING {
                    proof {
                        lemma_scan_none_sticks(bytes@, i + 1);
                    }
                    return Err(InputError::ResourceLimit);
                }
                depth = depth + 1;
            } else if b == 125 || b == 93 {
                depth = if depth == 0 { 0 } else { depth - 1 };
            }
        }
        i = i + 1;
    }
    assert(bytes@.take(i as int) =~= bytes@);
    match read_json_text(bytes) {
        Some(v) => Ok(v),
        None => Err(InputError::InvalidCommand),
    }
}

// ---------------------------------------------------------------------------
// Workload documents

/// Whether `v` is an array of more than `maximum` items.
pub open spec fn count_exceeds(v: Json, maximum: nat) -> bool {
    match v {
        Json::Array(a) => a@.len() > maximum,
        _ => false,
    }
}

/// The block is a real `repeat` block, whose body the preflight follows; a `body` on
/// any other block is left to shape validation.
pub open spec fn is_repeat_block(b: Json) -> bool {
    text_of(member(b, "op"@)) == Some("repeat"@)
}

/// Recursive block count scan of `list[i..]` at depth `depth`, with `count` blocks
/// seen so far; `None` once a depth, list-length or total-count bound is passed. Only
/// the bodies of `repeat` blocks are followed.
pub open spec fn spec_preflight_items(list: Seq<Json>, i: int, depth: int, count: nat) -> Option<nat>
    decreases MAX_REPEAT_DEPTH + 1 - depth, list.len() - i,
{
    if i < 0 || i >= list.len() {
        Some(count)
    } else if !is_repeat_block(list[i]) {
        spec_preflight_items(list, i + 1, depth, count)
    } else {
        match get(list[i], "body"@) {
            Some(Json::Array(body)) => if depth + 1 > MAX_REPEAT_DEPTH || body@.len() > MAX_BLOCKS || count
                + body@.len() > MAX_BLOCKS {
                None
            } else {
                match spec_preflight_items(body@, 0, depth + 1, count + body@.len()) {
                    None => None,
                    Some(c) => spec_preflight_items(list, i + 1, depth, c),
                }
            },
            _ => spec_preflight_items(list, i + 1, depth, count),
        }
    }
}

pub open spec fn spec_preflight_blocks(v: Json, depth: int, count: nat) -> Option<nat> {
    match v {
        Json::Array(list) => if depth > MAX_REPEAT_DEPTH || list@.len() > MAX_BLOCKS || count + list@.len()
            > MAX_BLOCKS {
            None
        } else {
            spec_preflight_items(list@, 0, depth, count + list@.len())
        },
        _ => Some(count),
    }
}

pub open spec fn program_preflight_ok(p: Json) -> bool {
    match p {
        Json::Object(_) => {
            &&& (get(p, "parameters"@) matches Some(x) ==> !count_exceeds(x, MAX_PARAMETERS as nat))
            &&& (get(p, "blocks"@) matches Some(b) ==> spec_preflight_blocks(b, 0, 0) is Some)
        },
        _ => true,
    }
}

pub open spec fn thread_preflight_ok(t: Json) -> bool {
    match get(t, "parameters"@) {
        Some(Json::Object(m)) => m@.len() <= MAX_PARAMETERS,
        _ => true,
    }
}

/// The resource bounds checked ahead of every other workload rule: program and thread
/// counts, parameter counts, block nesting depth and block counts.
#[verifier::opaque]
pub open spec fn preflight_ok(root: Json) -> bool {
    match root {
        Json::Object(_) => {
            &&& (get(root, "programs"@) matches Some(ps) ==> {
                &&& !count_exceeds(ps, MAX_INSTANCES as nat)
                &&& (ps matches Json::Array(items) ==> forall|k: int|
                    0 <= k < items@.len() ==> program_preflight_ok(#[trigger] items@[k]))
            })
            &&& (get(root, "threads"@) matches Some(ts) ==> {
                &&& !count_exceeds(ts, MAX_INSTANCES as nat)
                &&& (ts matches Json::Array(items) ==> forall|k: int|
                    0 <= k < items@.len() ==> thread_preflight_ok(#[trigger] items@[k]))
            })
        },
        _ => true,
    }
}

/// `v` is an array with more than `maximum` items.
fn exceeds(v: &Json, maximum: usize) -> (r: bool)
    ensures
        r == count_exceeds(*v, maximum as nat),
{
    match v {
        Json::Array(a) => a.len() > maximum,
        _ => false,
    }
}

fn preflight_items(list: &Vec<Json>, i0: usize, depth: usize, count: usize) -> (r: Option<usize>)
    requires
        depth <= MAX_REPEAT_DEPTH,
        count <= MAX_BLOCKS,
        i0 <= list@.len(),
    ensures
        match spec_preflight_items(list@, i0 as int, depth as int, count as nat) {
            Some(c) => r == Some(c as usize) && c <= MAX_BLOCKS,
            None => r is None,
        },
    decreases MAX_REPEAT_DEPTH + 1 - depth, list@.len() - i0,
{
    if i0 >= list.len() {
        return Some(count);
    }
    let repeat = match json_as_str(json_member(&list[i0], "op")) {
        Some(t) => str_eq(t, "repeat"),
        None => false,
    };
    if !repeat {
        return preflight_items(list, i0 + 1, depth, count);
    }
    let next = match json_get(&list[i0], "body") {
        Some(Json::Array(body)) => {
            if depth + 1 > MAX_REPEAT_DEPTH || body.len() > MAX_BLOCKS || count + body.len() > MAX_BLOCKS {
                return None;
            }
            match preflight_items(body, 0, depth + 1, count + body.len()) {
                None => {
                    return None;
                },
                Some(c) => c,
            }
        },
        _ => count,
    };
    preflight_items(list, i0 + 1, depth, next)
}

fn preflight_blocks(v: &Json) -> (r: bool)
    ensures
        r == (spec_preflight_blocks(*v, 0, 0) is Some),
{
    match v {
        Json::Array(list) => {
            if list.len() > MAX_BLOCKS {
                return false;
            }
            preflight_items(list, 0, 0, list.len()).is_some()
        },
        _ => true,
    }
}

fn program_preflight(p: &Json) -> (r: bool)
    ensures
        r == program_preflight_ok(*p),
{
    match p {
        Json::Object(_) => {
            if let Some(x) = json_get(p, "parameters") {
                if exceeds(x, MAX_PARAMETERS) {
                    return false;
                }
            }
            if let Some(b) = json_get(p, "blocks") {
                if !preflight_blocks(b) {
                    return false;
                }
            }
            true
        },
        _ => true,
    }
}

fn thread_preflight(t: &Json) -> (r: bool)
    ensures
        r == thread_preflight_ok(*t),
{
    match json_get(t, "parameters") {
        Some(Json::Object(m)) => m.len() <= MAX_PARAMETERS,
        _ => true,
    }
}

/// Checks the resource bounds of `preflight_ok` ahead of every other rule: a breach is a
/// resource-limit error.
fn preflight_resources(root: &Json) -> (r: Result<(), InputError>)
    ensures
        r == (if preflight_ok(*root) { Ok::<(), InputError>(()) } else { Err(InputError::ResourceLimit) }),
{
    reveal(preflight_ok);
    match root {
        Json::Object(_) => {},
        _ => {
            return Ok(());
        },
    }
    if let Some(ps) = json_get(root, "programs") {
        if exceeds(ps, MAX_INSTANCES) {
            return Err(InputError::ResourceLimit);
        }
        if let Json::Array(items) = ps {
            let mut k: usize = 0;
            while k < items.len()
                invariant
                    0 <= k <= items@.len(),
                    forall|j: int| 0 <= j < k ==> program_preflight_ok(#[trigger] items@[j]),
                    get(*root, "programs"@) == Some(*ps),
                    *ps == Json::Array(*items),
                    *root is Object,
                decreases items@.len() - k,
            {
                if !program_preflight(&items[k]) {
                    proof {
                        reveal(preflight_ok);
                    }
                    return Err(InputError::ResourceLimit);
                }
                k = k + 1;
            }
        }
    }
    if let Some(ts) = json_get(root, "threads") {
        if exceeds(ts, MAX_INSTANCES) {
            return Err(InputError::ResourceLimit);
        }
        if let Json::Array(items) = ts {
            let mut k: usize = 0;
            while k < items.len()
                invariant
                    0 <= k <= items@.len(),
                    forall|j: int| 0 <= j < k ==> thread_preflight_ok(#[trigger] items@[j]),
                    get(*root, "threads"@) == Some(*ts),
                    *ts == Json::Array(*items),
                    *root is Object,
                decreases items@.len() - k,
            {
                if !thread_preflight(&items[k]) {
                    proof {
                        reveal(preflight_ok);
                    }
                    return Err(InputError::ResourceLimit);
                }
                k = k + 1;
            }
        }
    }
    Ok(())
}

/// The integer held by a binary64 value with these bits when it lies in 1..=64.
/// A positive normal binary64 value is (2^52 + fraction) * 2^(exponent - 1075).
pub open spec fn binary64_small_count(bits: u64) -> Option<u64> {
    let exponent = (bits >> 52u64) & 0x7ffu64;
    let fraction = bits & 0xf_ffff_ffff_ffffu64;
    if bits >> 63u64 != 0 || exponent < 1023 || exponent > 1029 {
        None
    } else {
        let shift = (1075 - exponent) as u64;
        let significand = fraction | 0x10_0000_0000_0000u64;
        let n = significand >> shift;
        if n << shift == significand && n <= 64 { Some(n) } else { None }
    }
}

/// The core count: a JSON number whose value is an integer from 1 to 64.
pub open spec fn spec_core_count(v: Json) -> Option<u64> {
    match v {
        Json::Number(Some(bits)) => binary64_small_count(bits),
        _ => None,
    }
}

fn core_count(v: &Json) -> (r: Option<u64>)
    ensures
        r == spec_core_count(*v),
        r matches Some(n) ==> 1 <= n <= 64,
{
    match v {
        Json::Number(Some(bits)) => {
            let bits = *bits;
            let exponent = (bits >> 52u64) & 0x7ffu64;
            let fraction = bits & 0xf_ffff_ffff_ffffu64;
            if bits >> 63u64 != 0 || exponent < 1023 || exponent > 1029 {
                None
            } else {
                let shift = 1075 - exponent;
                let significand = fraction | 0x10_0000_0000_0000u64;
                let n = significand >> shift;
                assert(n >= 1) by (bit_vector)
                    requires
                        significand == fraction | 0x10_0000_0000_0000u64,
                        shift <= 52,
                        n == significand >> shift,
                ;
                if n << shift == significand && n <= 64 { Some(n) } else { None }
            }
        },
        _ => None,
    }
}

pub open spec fn spec_policy(p: Json) -> Result<PolicyConfig, InputError> {
    let kind = match get(p, "kind"@) {
        Some(k) => text_of(k),
        None => None,
    };
    if kind == Some("fcfs"@) {
        if object_ok(p, seq!["kind"@]) { Ok(PolicyConfig::Fcfs) } else { Err(InputError::InvalidCommand) }
    } else if kind == Some("roundRobin"@) {
        if !object_ok(p, seq!["kind"@, "quantum"@]) {
            Err(InputError::InvalidCommand)
        } else {
            match spec_unsigned(member(p, "quantum"@), true) {
                Ok(q) => Ok(PolicyConfig::RoundRobin { quantum: q }),
                Err(e) => Err(e),
            }
        }
    } else {
        Err(InputError::InvalidCommand)
    }
}

fn policy_config(p: &Json) -> (r: Result<PolicyConfig, InputError>)
    ensures
        r == spec_policy(*p),
{
    let kind = match json_get(p, "kind") {
        Some(k) => json_as_str(k),
        None => None,
    };
    match kind {
        Some(k) => {
            if str_eq(k, "fcfs") {
                let keys = ["kind"];
                assert(keys_of(keys@) =~= seq!["kind"@]);
                object(p, &keys)?;
                Ok(PolicyConfig::Fcfs)
            } else if str_eq(k, "roundRobin") {
                let keys = ["kind", "quantum"];
                assert(keys_of(keys@) =~= seq!["kind"@, "quantum"@]);
                object(p, &keys)?;
                let q = unsigned(json_member(p, "quantum"), true)?;
                Ok(PolicyConfig::RoundRobin { quantum: q })
            } else {
                Err(InputError::InvalidCommand)
            }
        },
        None => Err(InputError::InvalidCommand),
    }
}

/// The machine and run settings of a workload.
pub struct Header {
    pub machine: String,
    pub cores: usize,
    pub switch_cost: u64,
    pub control_budget: u64,
    pub seed: u64,
    pub policy: PolicyConfig,
}

pub open spec fn workload_fields() -> Seq<Seq<char>> {
    seq![
        "schemaVersion"@,
        "applicationVersion"@,
        "modelVersion"@,
        "engineVersion"@,
        "randomAlgorithmVersion"@,
        "seed"@,
        "machine"@,
        "policy"@,
        "programs"@,
        "threads"@,
    ]
}

pub open spec fn machine_fields() -> Seq<Seq<char>> {
    seq!["machineId"@, "cores"@, "switchCost"@, "controlOperationBudgetPerTick"@]
}

#[verifier::opaque]
pub open spec fn spec_header(v: Json) -> Result<Header, InputError> {
    let machine = member(v, "machine"@);
    if !object_ok(machine, machine_fields()) {
        Err(InputError::InvalidCommand)
    } else {
        match spec_id(member(machine, "machineId"@)) {
            Err(e) => Err(e),
            Ok(machine_id) => match spec_id(member(v, "applicationVersion"@)) {
                Err(e) => Err(e),
                Ok(_) => match spec_core_count(member(machine, "cores"@)) {
                    None => Err(InputError::InvalidCommand),
                    Some(cores) => match spec_unsigned(member(machine, "switchCost"@), false) {
                        Err(e) => Err(e),
                        Ok(switch_cost) => match spec_unsigned(
                            member(machine, "controlOperationBudgetPerTick"@),
                            true,
                        ) {
                            Err(e) => Err(e),
                            Ok(control_budget) => match spec_unsigned(member(v, "seed"@), false) {
                                Err(e) => Err(e),
                                Ok(seed) => match spec_policy(member(v, "policy"@)) {
                                    Err(e) => Err(e),
                                    Ok(policy) => Ok(
                                        Header {
                                            machine: machine_id,
                                            cores: cores as usize,
                                            switch_cost,
                                            control_budget,
                                            seed,
                                            policy,
                                        },
                                    ),
                                },
                            },
                        },
                    },
                },
            },
        }
    }
}

fn header(v: &Json) -> (r: Result<Header, InputError>)
    ensures
        r == spec_header(*v),
        r matches Ok(h) ==> 1 <= h.cores <= 64,
{
    reveal(spec_header);
    let machine = json_member(v, "machine");
    let keys = ["machineId", "cores", "switchCost", "controlOperationBudgetPerTick"];
    assert(keys_of(keys@) =~= machine_fields());
    object(machine, &keys)?;
    let machine_id = id(json_member(machine, "machineId"))?;
    id(json_member(v, "applicationVersion"))?;
    let cores = match core_count(json_member(machine, "cores")) {
        Some(n) => n,
        None => {
            return Err(InputError::InvalidCommand);
        },
    };
    let switch_cost = unsigned(json_member(machine, "switchCost"), false)?;
    let control_budget = unsigned(json_member(machine, "controlOperationBudgetPerTick"), true)?;
    let seed = unsigned(json_member(v, "seed"), false)?;
    let policy = policy_config(json_member(v, "policy"))?;
    Ok(Header { machine: machine_id, cores: cores as usize, switch_cost, control_budget, seed, policy })
}

pub open spec fn program_declared(ps: Seq<ProgramModel>, s: Seq<char>) -> bool {
    exists|k: int| 0 <= k < ps.len() && #[trigger] ps[k].id@ == s
}

/// Program objects `list[i..]` after `acc`; the flag records a program whose schema
/// version is not the supported one.
pub open spec fn spec_programs(list: Seq<Json>, i: int, acc: Seq<ProgramModel>, unsupported: bool) -> Result<
    (Seq<ProgramModel>, bool),
    InputError,
>
    decreases list.len() - i,
{
    if i < 0 || i >= list.len() {
        Ok((acc, unsupported))
    } else {
        match spec_program(list[i], false) {
            Err(e) => Err(e),
            Ok(pm) => {
                let uns = unsupported || text_of(member(list[i], "schemaVersion"@)) != Some(
                    "os-lab-program/1"@,
                );
                if program_declared(acc, pm.id@) {
                    Err(InputError::InvalidCommand)
                } else {
                    spec_programs(list, i + 1, acc.push(pm), uns)
                }
            },
        }
    }
}

pub open spec fn program_views(ps: Seq<Program>) -> Seq<ProgramModel> {
    ps.map_values(|p: Program| p@)
}

fn has_program(ps: &Vec<Program>, pid: &String) -> (r: bool)
    ensures
        r == program_declared(program_views(ps@), pid@),
{
    let mut k: usize = 0;
    while k < ps.len()
        invariant
            0 <= k <= ps@.len(),
            forall|j: int| 0 <= j < k ==> #[trigger] program_views(ps@)[j].id@ != pid@,
        decreases ps@.len() - k,
    {
        assert(program_views(ps@)[k as int] == ps@[k as int]@);
        if ps[k].id == *pid {
            assert(program_views(ps@)[k as int].id@ == pid@);
            return true;
        }
        k = k + 1;
    }
    false
}

fn programs(list: &Vec<Json>) -> (r: Result<(Vec<Program>, bool), InputError>)
    ensures
        match spec_programs(list@, 0, seq![], false) {
            Ok((ps, u)) => r matches Ok((v, b)) && program_views(v@) == ps && b == u,
            Err(e) => r matches Err(x) && x == e,
        },
{
    let mut out: Vec<Program> = Vec::new();
    let mut unsupported = false;
    assert(program_views(out@) =~= seq![]);
    let mut i: usize = 0;
    while i < list.len()
        invariant
            0 <= i <= list@.len(),
            spec_programs(list@, 0, seq![], false) == spec_programs(
                list@,
                i as int,
                program_views(out@),
                unsupported,
            ),
        decreases list@.len() - i,
    {
        let p = &list[i];
        let program = Program::from_value(p, false)?;
        let supported = match json_as_str(json_member(p, "schemaVersion")) {
            Some(t) => str_eq(t, "os-lab-program/1"),
            None => false,
        };
        unsupported = unsupported || !supported;
        if has_program(&out, &program.id) {
            return Err(InputError::InvalidCommand);
        }
        let ghost before = out@;
        out.push(program);
        assert(program_views(out@) =~= program_views(before).push(program@));
        i = i + 1;
    }
    Ok((out, unsupported))
}

/// A thread declaration, resolved against its program.
#[derive(Debug)]
pub struct ThreadInput {
    pub(crate) id: String,
    pub(crate) program: usize,
    pub(crate) arrival: u64,
    pub(crate) parameters: Vec<(String, i64)>,
}

/// What a thread declaration holds: its program index and its parameter bindings.
pub struct ThreadModel {
    pub id: String,
    pub program: nat,
    pub arrival: u64,
    pub parameters: Seq<(String, i64)>,
}

impl View for ThreadInput {
    type V = ThreadModel;

    closed spec fn view(&self) -> ThreadModel {
        ThreadModel { id: self.id, program: self.program as nat, arrival: self.arrival, parameters: self.parameters@ }
    }
}

pub open spec fn thread_views(ts: Seq<ThreadInput>) -> Seq<ThreadModel> {
    ts.map_values(|t: ThreadInput| t@)
}

/// The declaration named `key`, the first one if several.
pub open spec fn declaration(ps: Seq<Parameter>, key: Seq<char>) -> Option<Parameter>
    decreases ps.len(),
{
    if ps.len() == 0 {
        None
    } else if ps[0].id@ == key {
        Some(ps[0])
    } else {
        declaration(ps.drop_first(), key)
    }
}

fn find_declaration(ps: &Vec<Parameter>, key: &String) -> (r: Option<(i64, i64)>)
    ensures
        match declaration(ps@, key@) {
            Some(p) => r == Some((p.minimum, p.maximum)),
            None => r is None,
        },
{
    let mut k: usize = 0;
    assert(ps@.skip(0) =~= ps@);
    while k < ps.len()
        invariant
            0 <= k <= ps@.len(),
            declaration(ps@, key@) == declaration(ps@.skip(k as int), key@),
        decreases ps@.len() - k,
    {
        assert(ps@.skip(k as int).drop_first() =~= ps@.skip(k + 1));
        assert(ps@.skip(k as int)[0] == ps@[k as int]);
        if ps[k].id == *key {
            return Some((ps[k].minimum, ps[k].maximum));
        }
        k = k + 1;
    }
    None
}

/// The position of the first binding named `key`.
pub open spec fn binding_index(params: Seq<(String, i64)>, key: Seq<char>) -> Option<nat>
    decreases params.len(),
{
    if params.len() == 0 {
        None
    } else if params[0].0@ == key {
        Some(0)
    } else {
        match binding_index(params.drop_first(), key) {
            Some(j) => Some(j + 1),
            None => None,
        }
    }
}

/// Map insertion: the binding named `key` gets `value`, or a new binding is added.
pub open spec fn rebind(params: Seq<(String, i64)>, key: String, value: i64) -> Seq<(String, i64)> {
    match binding_index(params, key@) {
        Some(j) => params.update(j as int, (params[j as int].0, value)),
        None => params.push((key, value)),
    }
}

pub(crate) proof fn lemma_binding_index_bound(params: Seq<(String, i64)>, key: Seq<char>)
    ensures
        binding_index(params, key) matches Some(j) ==> j < params.len() && params[j as int].0@ == key,
    decreases params.len(),
{
    if params.len() > 0 {
        lemma_binding_index_bound(params.drop_first(), key);
    }
}

fn set_binding(params: &mut Vec<(String, i64)>, key: &String, value: i64)
    ensures
        final(params)@ == rebind(old(params)@, *key, value),
{
    let mut k: usize = 0;
    assert(params@.skip(0) =~= params@);
    while k < params.len()
        invariant
            0 <= k <= params@.len(),
            params@ == old(params)@,
            forall|j: int| 0 <= j < k ==> #[trigger] params@[j].0@ != key@,
            binding_index(params@, key@) == (match binding_index(params@.skip(k as int), key@) {
                Some(j) => Some((j + k) as nat),
                None => None::<nat>,
            }),
        decreases params@.len() - k,
    {
        assert(params@.skip(k as int).drop_first() =~= params@.skip(k + 1));
        assert(params@.skip(k as int)[0] == params@[k as int]);
        if params[k].0 == *key {
            let name = params[k].0.clone();
            params.set(k, (name, value));
            return;
        }
        k = k + 1;
    }
    params.push((key.clone(), value));
}

/// Thread parameter overrides `entries[i..]` checked against the program's declarations.
pub open spec fn spec_overrides(
    entries: Seq<(String, Json)>,
    i: int,
    decls: Seq<Parameter>,
    params: Seq<(String, i64)>,
) -> Result<Seq<(String, i64)>, InputError>
    decreases entries.len() - i,
{
    if i < 0 || i >= entries.len() {
        Ok(params)
    } else {
        match declaration(decls, entries[i].0@) {
            None => Err(InputError::InvalidCommand),
            Some(d) => match spec_signed(entries[i].1) {
                Err(e) => Err(e),
                Ok(x) => if x < d.minimum || x > d.maximum {
                    Err(InputError::InvalidCommand)
                } else {
                    spec_overrides(entries, i + 1, decls, rebind(params, entries[i].0, x))
                },
            },
        }
    }
}

fn overrides(entries: &Vec<(String, Json)>, decls: &Vec<Parameter>, params: &mut Vec<(String, i64)>) -> (r: Result<
    (),
    InputError,
>)
    ensures
        match spec_overrides(entries@, 0, decls@, old(params)@) {
            Ok(ps) => r is Ok && final(params)@ == ps,
            Err(e) => r == Err::<(), InputError>(e),
        },
{
    let mut i: usize = 0;
    while i < entries.len()
        invariant
            0 <= i <= entries@.len(),
            spec_overrides(entries@, 0, decls@, old(params)@) == spec_overrides(entries@, i as int, decls@, params@),
        decreases entries@.len() - i,
    {
        let (minimum, maximum) = match find_declaration(decls, &entries[i].0) {
            Some(range) => range,
            None => {
                return Err(InputError::InvalidCommand);
            },
        };
        let x = signed(&entries[i].1)?;
        if x < minimum || x > maximum {
            return Err(InputError::InvalidCommand);
        }
        set_binding(params, &entries[i].0, x);
        i = i + 1;
    }
    Ok(())
}

/// `thread_id.starts_with("<machine_id>:")`, byte for byte.
pub open spec fn in_namespace(machine: Seq<char>, thread: Seq<char>) -> bool {
    let p = encode_utf8(machine).push(58u8);
    let t = encode_utf8(thread);
    p.len() <= t.len() && t.subrange(0, p.len() as int) =~= p
}

fn namespaced(machine: &String, thread: &String) -> (r: bool)
    ensures
        r == in_namespace(machine@, thread@),
{
    let m = machine.as_str().as_bytes();
    let t = thread.as_str().as_bytes();
    if m.len() >= t.len() {
        return false;
    }
    let mut k: usize = 0;
    while k < m.len()
        invariant
            0 <= k <= m@.len(),
            m@.len() < t@.len(),
            m@ == encode_utf8(machine@),
            t@ == encode_utf8(thread@),
            forall|j: int| 0 <= j < k ==> m@[j] == #[trigger] t@[j],
        decreases m@.len() - k,
    {
        if m[k] != t[k] {
            proof {
                let p = encode_utf8(machine@).push(58u8);
                assert(t@.subrange(0, p.len() as int)[k as int] != p[k as int]);
            }
            return false;
        }
        k = k + 1;
    }
    let ok = t[m.len()] == 58u8;
    proof {
        let p = encode_utf8(machine@).push(58u8);
        if ok {
            assert(t@.subrange(0, p.len() as int) =~= p);
        } else {
            assert(t@.subrange(0, p.len() as int)[m@.len() as int] != p[m@.len() as int]);
        }
    }
    ok
}

pub open spec fn thread_declared(ts: Seq<ThreadModel>, s: Seq<char>) -> bool {
    exists|k: int| 0 <= k < ts.len() && #[trigger] ts[k].id@ == s
}

/// The position of the first program named `s`.
pub open spec fn program_index(ps: Seq<ProgramModel>, s: Seq<char>) -> Option<nat>
    decreases ps.len(),
{
    if ps.len() == 0 {
        None
    } else if ps[0].id@ == s {
        Some(0)
    } else {
        match program_index(ps.drop_first(), s) {
            Some(j) => Some(j + 1),
            None => None,
        }
    }
}

pub(crate) proof fn lemma_program_index_bound(ps: Seq<ProgramModel>, s: Seq<char>)
    ensures
        program_index(ps, s) matches Some(j) ==> j < ps.len(),
    decreases ps.len(),
{
    if ps.len() > 0 {
        lemma_program_index_bound(ps.drop_first(), s);
    }
}

fn find_program(ps: &Vec<Program>, s: &String) -> (r: Option<usize>)
    ensures
        match program_index(program_views(ps@), s@) {
            Some(j) => r matches Some(x) && x as nat == j,
            None => r is None,
        },
{
    let mut k: usize = 0;
    assert(program_views(ps@).skip(0) =~= program_views(ps@));
    while k < ps.len()
        invariant
            0 <= k <= ps@.len(),
            program_index(program_views(ps@), s@) == (match program_index(program_views(ps@).skip(k as int), s@) {
                Some(j) => Some((j + k) as nat),
                None => None::<nat>,
            }),
        decreases ps@.len() - k,
    {
        assert(program_views(ps@).skip(k as int).drop_first() =~= program_views(ps@).skip(k + 1));
        assert(program_views(ps@).skip(k as int)[0] == ps@[k as int]@);
        if ps[k].id == *s {
            return Some(k);
        }
        k = k + 1;
    }
    None
}

pub open spec fn thread_fields() -> Seq<Seq<char>> {
    seq!["threadId"@, "programId"@, "arrival"@, "parameters"@]
}

/// The identity part of a thread declaration: its identifier and program position.
#[verifier::opaque]
pub open spec fn spec_thread_head(t: Json, machine: String, programs: Seq<ProgramModel>, before: Seq<ThreadModel>) -> Result<
    (String, nat),
    InputError,
> {
    if !object_ok(t, thread_fields()) {
        Err(InputError::InvalidCommand)
    } else {
        match spec_id(member(t, "threadId"@)) {
            Err(e) => Err(e),
            Ok(tid) => if !in_namespace(machine@, tid@) || thread_declared(before, tid@) {
                Err(InputError::InvalidCommand)
            } else {
                match spec_id(member(t, "programId"@)) {
                    Err(e) => Err(e),
                    Ok(pref) => match program_index(programs, pref@) {
                        None => Err(InputError::InvalidCommand),
                        Some(pi) => Ok((tid, pi)),
                    },
                }
            },
        }
    }
}

/// The parameter and arrival part of a thread declaration that runs `program`.
#[verifier::opaque]
pub open spec fn spec_thread_body(t: Json, tid: String, pi: nat, program: ProgramModel) -> Result<
    ThreadModel,
    InputError,
> {
    match member(t, "parameters"@) {
        Json::Object(ov) => if ov@.len() > MAX_PARAMETERS {
            Err(InputError::ResourceLimit)
        } else {
            match spec_overrides(ov@, 0, program.parameters, defaults(program.parameters)) {
                Err(e) => Err(e),
                Ok(ps) => if !operands_bound(program.instructions, ps) {
                    Err(InputError::InvalidCommand)
                } else {
                    match spec_unsigned(member(t, "arrival"@), false) {
                        Err(e) => Err(e),
                        Ok(a) => Ok(ThreadModel { id: tid, program: pi, arrival: a, parameters: ps }),
                    }
                },
            }
        },
        _ => Err(InputError::InvalidCommand),
    }
}

/// One thread declaration, given the machine identifier, the programs and the threads before it.
pub open spec fn spec_thread(t: Json, machine: String, programs: Seq<ProgramModel>, before: Seq<ThreadModel>) -> Result<
    ThreadModel,
    InputError,
> {
    match spec_thread_head(t, machine, programs, before) {
        Err(e) => Err(e),
        Ok((tid, pi)) => spec_thread_body(t, tid, pi, programs[pi as int]),
    }
}

pub open spec fn spec_threads(
    list: Seq<Json>,
    i: int,
    machine: String,
    programs: Seq<ProgramModel>,
    acc: Seq<ThreadModel>,
) -> Result<Seq<ThreadModel>, InputError>
    decreases list.len() - i,
{
    if i < 0 || i >= list.len() {
        Ok(acc)
    } else {
        match spec_thread(list[i], machine, programs, acc) {
            Err(e) => Err(e),
            Ok(tm) => spec_threads(list, i + 1, machine, programs, acc.push(tm)),
        }
    }
}

fn has_thread(ts: &Vec<ThreadInput>, tid: &String) -> (r: bool)
    ensures
        r == thread_declared(thread_views(ts@), tid@),
{
    let mut k: usize = 0;
    while k < ts.len()
        invariant
            0 <= k <= ts@.len(),
            forall|j: int| 0 <= j < k ==> #[trigger] thread_views(ts@)[j].id@ != tid@,
        decreases ts@.len() - k,
    {
        assert(thread_views(ts@)[k as int] == ts@[k as int]@);
        if ts[k].id == *tid {
            assert(thread_views(ts@)[k as int].id@ == tid@);
            return true;
        }
        k = k + 1;
    }
    false
}

fn thread_head(t: &Json, machine: &String, programs: &Vec<Program>, before: &Vec<ThreadInput>) -> (r: Result<
    (String, usize),
    InputError,
>)
    ensures
        match spec_thread_head(*t, *machine, program_views(programs@), thread_views(before@)) {
            Ok((tid, pi)) => r matches Ok((x, j)) && x == tid && j == pi && j < programs@.len(),
            Err(e) => r matches Err(x) && x == e,
        },
{
    reveal(spec_thread_head);
    let keys = ["threadId", "programId", "arrival", "parameters"];
    assert(keys_of(keys@) =~= thread_fields());
    object(t, &keys)?;
    let tid = id(json_member(t, "threadId"))?;
    if !namespaced(machine, &tid) || has_thread(before, &tid) {
        return Err(InputError::InvalidCommand);
    }
    let pref = id(json_member(t, "programId"))?;
    match find_program(programs, &pref) {
        Some(j) => {
            proof {
                lemma_program_index_bound(program_views(programs@), pref@);
            }
            assert(program_index(program_views(programs@), pref@) == Some(j as nat));
            assert(spec_id(member(*t, "programId"@)) == Ok::<String, InputError>(pref));
            assert(spec_id(member(*t, "threadId"@)) == Ok::<String, InputError>(tid));
            assert(spec_thread_head(*t, *machine, program_views(programs@), thread_views(before@)) == Ok::<(String, nat), InputError>((tid, j as nat)));
            Ok((tid, j))
        },
        None => Err(InputError::InvalidCommand),
    }
}

fn thread_body(t: &Json, tid: String, pi: usize, program: &Program) -> (r: Result<ThreadInput, InputError>)
    ensures
        match spec_thread_body(*t, tid, pi as nat, program@) {
            Ok(tm) => r matches Ok(x) && x@ == tm,
            Err(e) => r matches Err(x) && x == e,
        },
{
    reveal(spec_thread_body);
    let ov = match json_member(t, "parameters") {
        Json::Object(m) => m,
        _ => {
            return Err(InputError::InvalidCommand);
        },
    };
    if ov.len() > MAX_PARAMETERS {
        return Err(InputError::ResourceLimit);
    }
    let mut params = default_bindings(&program.parameters);
    overrides(ov, &program.parameters, &mut params)?;
    check_operands(&program.instructions, &params)?;
    let arrival = unsigned(json_member(t, "arrival"), false)?;
    Ok(ThreadInput { id: tid, program: pi, arrival, parameters: params })
}

fn thread_input(t: &Json, machine: &String, programs: &Vec<Program>, before: &Vec<ThreadInput>) -> (r: Result<
    ThreadInput,
    InputError,
>)
    ensures
        match spec_thread(*t, *machine, program_views(programs@), thread_views(before@)) {
            Ok(tm) => r matches Ok(x) && x@ == tm,
            Err(e) => r matches Err(x) && x == e,
        },
{
    let (tid, pi) = thread_head(t, machine, programs, before)?;
    assert(program_views(programs@)[pi as int] == programs@[pi as int]@);
    thread_body(t, tid, pi, &programs[pi])
}

fn threads(list: &Vec<Json>, machine: &String, programs: &Vec<Program>) -> (r: Result<Vec<ThreadInput>, InputError>)
    ensures
        match spec_threads(list@, 0, *machine, program_views(programs@), seq![]) {
            Ok(ts) => r matches Ok(v) && thread_views(v@) == ts,
            Err(e) => r matches Err(x) && x == e,
        },
{
    let mut out: Vec<ThreadInput> = Vec::new();
    assert(thread_views(out@) =~= seq![]);
    let mut i: usize = 0;
    while i < list.len()
        invariant
            0 <= i <= list@.len(),
            spec_threads(list@, 0, *machine, program_views(programs@), seq![]) == spec_threads(
                list@,
                i as int,
                *machine,
                program_views(programs@),
                thread_views(out@),
            ),
        decreases list@.len() - i,
    {
        let ti = thread_input(&list[i], machine, programs, &out)?;
        let ghost before = out@;
        out.push(ti);
        assert(thread_views(out@) =~= thread_views(before).push(ti@));
        i = i + 1;
    }
    Ok(out)
}

#[verifier::opaque]
pub open spec fn spec_versions(v: Json, unsupported_program: bool) -> Result<(), InputError> {
    if text_of(member(v, "schemaVersion"@)) is None || text_of(member(v, "modelVersion"@)) is None || text_of(
        member(v, "engineVersion"@),
    ) is None || text_of(member(v, "randomAlgorithmVersion"@)) is None {
        Err(InputError::InvalidCommand)
    } else if text_of(member(v, "schemaVersion"@)) != Some("os-lab-workload/1"@) {
        Err(InputError::UnsupportedSchema)
    } else if unsupported_program {
        Err(InputError::UnsupportedSchema)
    } else if text_of(member(v, "modelVersion"@)) != Some("sched.m1/revision-1"@) {
        Err(InputError::UnsupportedModel)
    } else if text_of(member(v, "engineVersion"@)) != Some("sim-engine.0.1.0"@) {
        Err(InputError::UnsupportedEngine)
    } else if text_of(member(v, "randomAlgorithmVersion"@)) != Some("none.v1"@) {
        Err(InputError::UnsupportedRandomAlgorithm)
    } else {
        Ok(())
    }
}

fn versions(v: &Json, unsupported_program: bool) -> (r: Result<(), InputError>)
    ensures
        r == spec_versions(*v, unsupported_program),
{
    reveal(spec_versions);
    if json_as_str(json_member(v, "schemaVersion")).is_none() || json_as_str(json_member(v, "modelVersion")).is_none()
        || json_as_str(json_member(v, "engineVersion")).is_none() || json_as_str(
        json_member(v, "randomAlgorithmVersion"),
    ).is_none() {
        return Err(InputError::InvalidCommand);
    }
    version(json_member(v, "schemaVersion"), "os-lab-workload/1", InputError::UnsupportedSchema)?;
    if unsupported_program {
        return Err(InputError::UnsupportedSchema);
    }
    version(json_member(v, "modelVersion"), "sched.m1/revision-1", InputError::UnsupportedModel)?;
    version(json_member(v, "engineVersion"), "sim-engine.0.1.0", InputError::UnsupportedEngine)?;
    version(json_member(v, "randomAlgorithmVersion"), "none.v1", InputError::UnsupportedRandomAlgorithm)?;
    Ok(())
}

/// A validated workload: machine, policy, programs and threads. Constructible only
/// through decoding; the programs and threads stay immutable.
#[derive(Debug)]
pub struct Workload {
    pub(crate) source: Json,
    pub(crate) machine: String,
    pub(crate) cores: usize,
    pub(crate) switch_cost: u64,
    pub(crate) control_budget: u64,
    pub(crate) programs: Vec<Program>,
    pub(crate) threads: Vec<ThreadInput>,
    pub(crate) policy: PolicyConfig,
    pub(crate) seed: u64,
}

/// What a workload holds.
pub struct WorkloadModel {
    pub source: Json,
    pub machine: String,
    pub cores: usize,
    pub switch_cost: u64,
    pub control_budget: u64,
    pub programs: Seq<ProgramModel>,
    pub threads: Seq<ThreadModel>,
    pub policy: PolicyConfig,
    pub seed: u64,
}

impl View for Workload {
    type V = WorkloadModel;

    closed spec fn view(&self) -> WorkloadModel {
        WorkloadModel {
            source: self.source,
            machine: self.machine,
            cores: self.cores,
            switch_cost: self.switch_cost,
            control_budget: self.control_budget,
            programs: program_views(self.programs@),
            threads: thread_views(self.threads@),
            policy: self.policy,
            seed: self.seed,
        }
    }
}

/// Decoding of a workload object.
#[verifier::opaque]
pub open spec fn spec_workload(v: Json) -> Result<WorkloadModel, InputError> {
    if !preflight_ok(v) {
        Err(InputError::ResourceLimit)
    } else if !object_ok(v, workload_fields()) {
        Err(InputError::InvalidCommand)
    } else {
        match spec_header(v) {
            Err(e) => Err(e),
            Ok(h) => match spec_array(member(v, "programs"@), 1, MAX_INSTANCES as nat) {
                Err(e) => Err(e),
                Ok(plist) => match spec_array(member(v, "threads"@), 1, MAX_INSTANCES as nat) {
                    Err(e) => Err(e),
                    Ok(tlist) => match spec_programs(plist, 0, seq![], false) {
                        Err(e) => Err(e),
                        Ok((programs, unsupported)) => match spec_threads(tlist, 0, h.machine, programs, seq![]) {
                            Err(e) => Err(e),
                            Ok(threads) => match spec_versions(v, unsupported) {
                                Err(e) => Err(e),
                                Ok(_) => Ok(
                                    WorkloadModel {
                                        source: v,
                                        machine: h.machine,
                                        cores: h.cores,
                                        switch_cost: h.switch_cost,
                                        control_budget: h.control_budget,
                                        programs,
                                        threads,
                                        policy: h.policy,
                                        seed: h.seed,
                                    },
                                ),
                            },
                        },
                    },
                },
            },
        }
    }
}

pub open spec fn workload_result(r: Result<Workload, InputError>) -> Result<WorkloadModel, InputError> {
    match r {
        Ok(w) => Ok(w@),
        Err(e) => Err(e),
    }
}

/// Every thread runs a declared program, and every parameter operand of that
/// program is bound to a positive value for the thread.
pub open spec fn threads_resolved(programs: Seq<ProgramModel>, threads: Seq<ThreadModel>) -> bool {
    forall|t: int|
        0 <= t < threads.len() ==> {
            &&& (#[trigger] threads[t]).program < programs.len()
            &&& operands_bound(programs[threads[t].program as int].instructions, threads[t].parameters)
        }
}

proof fn lemma_thread_resolved(t: Json, machine: String, programs: Seq<ProgramModel>, before: Seq<ThreadModel>)
    ensures
        spec_thread(t, machine, programs, before) matches Ok(tm) ==> {
            &&& tm.program < programs.len()
            &&& operands_bound(programs[tm.program as int].instructions, tm.parameters)
        },
{
    reveal(spec_thread_head);
    reveal(spec_thread_body);
    match spec_thread_head(t, machine, programs, before) {
        Ok((tid, pi)) => {
            let pref = spec_id(member(t, "programId"@));
            lemma_program_index_bound(programs, pref->Ok_0@);
        },
        _ => {},
    }
}

proof fn lemma_threads_resolved(
    list: Seq<Json>,
    i: int,
    machine: String,
    programs: Seq<ProgramModel>,
    acc: Seq<ThreadModel>,
)
    requires
        threads_resolved(programs, acc),
    ensures
        spec_threads(list, i, machine, programs, acc) matches Ok(ts) ==> threads_resolved(programs, ts) && ts.len()
            == acc.len() + (if 0 <= i <= list.len() { list.len() - i } else { 0 }),
    decreases list.len() - i,
{
    if 0 <= i < list.len() {
        lemma_thread_resolved(list[i], machine, programs, acc);
        match spec_thread(list[i], machine, programs, acc) {
            Ok(tm) => {
                assert(threads_resolved(programs, acc.push(tm)));
                lemma_threads_resolved(list, i + 1, machine, programs, acc.push(tm));
            },
            _ => {},
        }
    }
}

/// No two threads share an identifier.
pub open spec fn distinct_ids(threads: Seq<ThreadModel>) -> bool {
    forall|i: int, j: int| 0 <= i < j < threads.len() ==> (#[trigger] threads[i]).id@ != (#[trigger] threads[j]).id@
}

proof fn lemma_thread_fresh(t: Json, machine: String, programs: Seq<ProgramModel>, before: Seq<ThreadModel>)
    ensures
        spec_thread(t, machine, programs, before) matches Ok(tm) ==> !thread_declared(before, tm.id@),
{
    reveal(spec_thread_head);
    reveal(spec_thread_body);
}

proof fn lemma_threads_distinct(
    list: Seq<Json>,
    i: int,
    machine: String,
    programs: Seq<ProgramModel>,
    acc: Seq<ThreadModel>,
)
    requires
        distinct_ids(acc),
    ensures
        spec_threads(list, i, machine, programs, acc) matches Ok(ts) ==> distinct_ids(ts),
    decreases list.len() - i,
{
    if 0 <= i < list.len() {
        lemma_thread_fresh(list[i], machine, programs, acc);
        match spec_thread(list[i], machine, programs, acc) {
            Ok(tm) => {
                let next = acc.push(tm);
                assert forall|a: int, b: int| 0 <= a < b < next.len() implies (#[trigger] next[a]).id@
                    != (#[trigger] next[b]).id@ by {
                    if b == acc.len() {
                        assert(next[a] == acc[a]);
                        if acc[a].id@ == tm.id@ {
                            assert(thread_declared(acc, tm.id@));
                        }
                    } else {
                        assert(next[a] == acc[a] && next[b] == acc[b]);
                    }
                }
                lemma_threads_distinct(list, i + 1, machine, programs, next);
            },
            _ => {},
        }
    }
}

proof fn lemma_distinct_fields(threads: Seq<ThreadInput>)
    requires
        distinct_ids(thread_views(threads)),
    ensures
        forall|i: int, j: int|
            0 <= i < j < threads.len() ==> (#[trigger] threads[i]).id@ != (#[trigger] threads[j]).id@,
{
    assert forall|i: int, j: int| 0 <= i < j < threads.len() implies (#[trigger] threads[i]).id@ != (
    #[trigger] threads[j]).id@ by {
        assert(thread_views(threads)[i] == threads[i]@);
        assert(thread_views(threads)[j] == threads[j]@);
    }
}

proof fn lemma_resolved_fields(programs: Seq<Program>, threads: Seq<ThreadInput>)
    requires
        threads_resolved(program_views(programs), thread_views(threads)),
    ensures
        forall|t: int|
            0 <= t < threads.len() ==> {
                &&& (#[trigger] threads[t]).program < programs.len()
                &&& operands_bound(programs[threads[t].program as int].instructions@, threads[t].parameters@)
            },
{
    assert forall|t: int| 0 <= t < threads.len() implies {
        &&& (#[trigger] threads[t]).program < programs.len()
        &&& operands_bound(programs[threads[t].program as int].instructions@, threads[t].parameters@)
    } by {
        assert(thread_views(threads)[t] == threads[t]@);
        assert(program_views(programs)[threads[t].program as int] == programs[threads[t].program as int]@);
    }
}

/// The view of a workload holds its fields.
pub(crate) proof fn lemma_workload_view(w: &Workload)
    ensures
        w@.threads.len() == w.threads@.len(),
        w@.cores == w.cores,
        w@.policy == w.policy,
        w@.machine == w.machine,
        w@.switch_cost == w.switch_cost,
        w@.control_budget == w.control_budget,
        forall|t: int| 0 <= t < w.threads@.len() ==> (#[trigger] w@.threads[t]).id == w.threads@[t].id && w@.threads[t].arrival
            == w.threads@[t].arrival && w@.threads[t].program == w.threads@[t].program as nat,
        w@.programs.len() == w.programs@.len(),
        forall|p: int| 0 <= p < w.programs@.len() ==> (#[trigger] w@.programs[p]).instructions == w.programs@[p].instructions@,
{
    assert forall|p: int| 0 <= p < w.programs@.len() implies (#[trigger] w@.programs[p]).instructions
        == w.programs@[p].instructions@ by {
        assert(program_views(w.programs@)[p] == w.programs@[p]@);
    }
    assert forall|t: int| 0 <= t < w.threads@.len() implies (#[trigger] w@.threads[t]).id == w.threads@[t].id
        && w@.threads[t].arrival == w.threads@[t].arrival && w@.threads[t].program == w.threads@[t].program as nat by {
        assert(thread_views(w.threads@)[t] == w.threads@[t]@);
    }
}

impl Workload {
    /// The facts that the kernel relies on.
    #[verifier::type_invariant]
    pub(crate) open spec fn well_formed(&self) -> bool {
        &&& 1 <= self.cores <= 64
        &&& 1 <= self.threads@.len() <= MAX_INSTANCES
        &&& forall|t: int|
            0 <= t < self.threads@.len() ==> {
                &&& (#[trigger] self.threads@[t]).program < self.programs@.len()
                &&& operands_bound(
                    self.programs@[self.threads@[t].program as int].instructions@,
                    self.threads@[t].parameters@,
                )
            }
        &&& forall|i: int, j: int|
            0 <= i < j < self.threads@.len() ==> (#[trigger] self.threads@[i]).id@ != (#[trigger] self.threads@[j]).id@
    }

    /// Decodes a workload document.
    pub fn decode(bytes: &[u8]) -> (r: Result<Workload, InputError>)
        ensures
            workload_result(r) == (match spec_parse(bytes@) {
                Ok(v) => spec_workload(v),
                Err(e) => Err(e),
            }),
    {
        let v = parse(bytes)?;
        Workload::from_value(v)
    }

    /// Decodes a workload object, keeping the object as the workload's source.
    pub fn from_value(v: Json) -> (r: Result<Workload, InputError>)
        ensures
            workload_result(r) == spec_workload(v),
    {
        reveal(spec_workload);
        preflight_resources(&v)?;
        let keys = [
            "schemaVersion",
            "applicationVersion",
            "modelVersion",
            "engineVersion",
            "randomAlgorithmVersion",
            "seed",
            "machine",
            "policy",
            "programs",
            "threads",
        ];
        assert(keys_of(keys@) =~= workload_fields());
        object(&v, &keys)?;
        let h = header(&v)?;
        let plist = array(json_member(&v, "programs"), 1, MAX_INSTANCES)?;
        let tlist = array(json_member(&v, "threads"), 1, MAX_INSTANCES)?;
        let (programs, unsupported) = programs(plist)?;
        let threads = threads(tlist, &h.machine, &programs)?;
        versions(&v, unsupported)?;
        proof {
            lemma_threads_resolved(tlist@, 0, h.machine, program_views(programs@), seq![]);
            lemma_resolved_fields(programs@, threads@);
            lemma_threads_distinct(tlist@, 0, h.machine, program_views(programs@), seq![]);
            lemma_distinct_fields(threads@);
        }
        Ok(Workload {
            source: v,
            machine: h.machine,
            cores: h.cores,
            switch_cost: h.switch_cost,
            control_budget: h.control_budget,
            programs,
            threads,
            policy: h.policy,
            seed: h.seed,
        })
    }

    /// The scheduling policy configuration.
    pub fn policy(&self) -> (r: &PolicyConfig)
        ensures
            *r == self@.policy,
    {
        &self.policy
    }

    /// The run seed.
    pub fn seed(&self) -> (r: u64)
        ensures
            r == self@.seed,
    {
        self.seed
    }

    /// The run-wide control-operation budget per tick.
    pub fn control_budget(&self) -> (r: u64)
        ensures
            r == self@.control_budget,
    {
        self.control_budget
    }

    /// The decoded document that the workload came from.
    pub fn source(&self) -> (r: &Json)
        ensures
            *r == self@.source,
    {
        &self.source
    }

    /// The arrival tick of the thread declared at `index`.
    pub fn arrival(&self, index: usize) -> (r: Option<u64>)
        ensures
            r == (if index < self@.threads.len() { Some(self@.threads[index as int].arrival) } else { None::<u64> }),
    {
        if index < self.threads.len() {
            assert(self@.threads[index as int] == self.threads@[index as int]@);
            Some(self.threads[index].arrival)
        } else {
            None
        }
    }
}


} // verus!
