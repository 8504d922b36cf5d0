//! The four kinds of project documents and their canonical encodings.
use crate::value::{
    encode_value, le_u64, push_str, push_u64, str_bytes, value_bytes, Value, ValueType,
};
use vstd::prelude::*;

verus! {

pub const TAG_IMPORT: u8 = 0x10;
pub const TAG_FUNCTION: u8 = 0x11;
pub const TAG_BUILD: u8 = 0x12;
pub const TAG_DEPLOY: u8 = 0x13;
pub const TAG_ENV_STEP: u8 = 0x20;
pub const TAG_INVOKE_STEP: u8 = 0x21;

/// A mapping from parameter names to values, in increasing key order.
pub type Parameters = Vec<(String, Value)>;

/// A mapping from parameter names to their declarations, in increasing key order.
pub type ParameterSpec = Vec<(String, Parameter)>;

/// A plugin that the project requires, with its version.
#[derive(Debug)]
pub struct Import {
    pub require: String,
    pub version: String,
}

/// A declared function parameter: its type and an optional default.
#[derive(Debug)]
pub struct Parameter {
    pub type_: ValueType,
    pub default: Option<Value>,
}

/// A step that runs a named action of the environment.
#[derive(Debug)]
pub struct EnvironmentStep {
    pub action: String,
    pub parameters: Parameters,
}

/// A step that runs a function of the project.
#[derive(Debug)]
pub struct InvokeFunctionStep {
    pub invoke_fn: String,
    pub parameters: Parameters,
}

/// One step of a function or of an environment block; `Null` is a step that matched neither form.
#[derive(Debug)]
pub enum Step {
    EnvironmentStep(EnvironmentStep),
    InvokeFunctionStep(InvokeFunctionStep),
    Null,
}

/// A reusable sequence of steps.
#[derive(Debug)]
pub struct FunctionDoc {
    pub name: String,
    pub parameter_spec: ParameterSpec,
    pub steps: Vec<Step>,
}

/// One use of a plugin environment inside a build: `plugin/env_kind`, its creation
/// parameters and its steps.
#[derive(Debug)]
pub struct Environment {
    pub name: String,
    pub parameters: Parameters,
    pub steps: Vec<Step>,
}

/// A build recipe for one artifact.
#[derive(Debug)]
pub struct BuildDoc {
    pub name: String,
    pub from: Option<String>,
    pub depends: Option<Vec<String>>,
    pub envs: Vec<Environment>,
}

/// A deployment of an artifact through a plugin's deployment provider.
#[derive(Debug)]
pub struct DeployDoc {
    pub name: String,
    pub deploy_to: String,
    pub artifact: String,
    pub parameters: Parameters,
}

/// One document of a project file.
#[derive(Debug)]
pub enum Document {
    Import(Vec<Import>),
    Function(FunctionDoc),
    Build(BuildDoc),
    Deploy(DeployDoc),
}

// ---- canonical encodings ----

pub open spec fn value_type_bytes(t: ValueType) -> Seq<u8>
    decreases t,
{
    match t {
        ValueType::Integer => seq![0u8],
        ValueType::Float => seq![1u8],
        ValueType::String => seq![2u8],
        ValueType::Bool => seq![3u8],
        ValueType::Array(inner) => seq![4u8] + value_type_bytes(*inner),
        ValueType::Dict(inner) => seq![5u8] + value_type_bytes(*inner),
    }
}

pub open spec fn option_value_bytes(v: Option<Value>) -> Seq<u8> {
    match v {
        None => seq![0u8],
        Some(x) => seq![1u8] + value_bytes(x),
    }
}

/// Entries of a parameter mapping, each name followed by its value.
pub open spec fn params_entries_bytes(s: Seq<(String, Value)>) -> Seq<u8>
    decreases s.len(),
{
    if s.len() == 0 {
        Seq::empty()
    } else {
        params_entries_bytes(s.drop_last()) + str_bytes(s.last().0@) + value_bytes(s.last().1)
    }
}

pub open spec fn params_bytes(s: Seq<(String, Value)>) -> Seq<u8> {
    le_u64(s.len() as u64) + params_entries_bytes(s)
}

pub open spec fn spec_entries_bytes(s: Seq<(String, Parameter)>) -> Seq<u8>
    decreases s.len(),
{
    if s.len() == 0 {
        Seq::empty()
    } else {
        spec_entries_bytes(s.drop_last()) + str_bytes(s.last().0@) + value_type_bytes(
            s.last().1.type_,
        ) + option_value_bytes(s.last().1.default)
    }
}

pub open spec fn step_bytes(s: Step) -> Seq<u8> {
    match s {
        Step::EnvironmentStep(e) => seq![TAG_ENV_STEP] + str_bytes(e.action@) + params_bytes(
            e.parameters@,
        ),
        Step::InvokeFunctionStep(f) => seq![TAG_INVOKE_STEP] + str_bytes(f.invoke_fn@)
            + params_bytes(f.parameters@),
        Step::Null => seq![0u8],
    }
}

pub open spec fn steps_entries_bytes(s: Seq<Step>) -> Seq<u8>
    decreases s.len(),
{
    if s.len() == 0 {
        Seq::empty()
    } else {
        steps_entries_bytes(s.drop_last()) + step_bytes(s.last())
    }
}

pub open spec fn steps_bytes(s: Seq<Step>) -> Seq<u8> {
    le_u64(s.len() as u64) + steps_entries_bytes(s)
}

pub open spec fn strings_entries_bytes(s: Seq<String>) -> Seq<u8>
    decreases s.len(),
{
    if s.len() == 0 {
        Seq::empty()
    } else {
        strings_entries_bytes(s.drop_last()) + str_bytes(s.last()@)
    }
}

pub open spec fn env_bytes(e: Environment) -> Seq<u8> {
    str_bytes(e.name@) + params_bytes(e.parameters@) + steps_bytes(e.steps@)
}

pub open spec fn envs_entries_bytes(s: Seq<Environment>) -> Seq<u8>
    decreases s.len(),
{
    if s.len() == 0 {
        Seq::empty()
    } else {
        envs_entries_bytes(s.drop_last()) + env_bytes(s.last())
    }
}

pub open spec fn import_bytes(i: Import) -> Seq<u8> {
    seq![TAG_IMPORT] + str_bytes(i.require@) + str_bytes(i.version@)
}

pub open spec fn function_bytes(f: FunctionDoc) -> Seq<u8> {
    seq![TAG_FUNCTION] + str_bytes(f.name@) + le_u64(f.parameter_spec@.len() as u64)
        + spec_entries_bytes(f.parameter_spec@) + steps_bytes(f.steps@)
}

pub open spec fn build_bytes(b: BuildDoc) -> Seq<u8> {
    seq![TAG_BUILD] + str_bytes(b.name@) + match b.from {
        None => seq![0u8],
        Some(f) => seq![1u8] + str_bytes(f@),
    } + match b.depends {
        None => seq![0u8],
        Some(d) => seq![1u8] + le_u64(d@.len() as u64) + strings_entries_bytes(d@),
    } + le_u64(b.envs@.len() as u64) + envs_entries_bytes(b.envs@)
}

pub open spec fn deploy_bytes(d: DeployDoc) -> Seq<u8> {
    seq![TAG_DEPLOY] + str_bytes(d.name@) + str_bytes(d.deploy_to@) + str_bytes(d.artifact@)
        + params_bytes(d.parameters@)
}

} // verus!

verus! {

pub fn encode_value_type(t: &ValueType, out: &mut Vec<u8>)
    ensures
        final(out)@ == old(out)@ + value_type_bytes(*t),
    decreases t,
{
    let ghost start = out@;
    match t {
        ValueType::Integer => out.push(0u8),
        ValueType::Float => out.push(1u8),
        ValueType::String => out.push(2u8),
        ValueType::Bool => out.push(3u8),
        ValueType::Array(inner) => {
            out.push(4u8);
            encode_value_type(inner, out);
        },
        ValueType::Dict(inner) => {
            out.push(5u8);
            encode_value_type(inner, out);
        },
    }
    assert(out@ =~= start + value_type_bytes(*t));
}

pub fn encode_params(p: &Parameters, out: &mut Vec<u8>)
    ensures
        final(out)@ == old(out)@ + params_bytes(p@),
{
    let ghost start = out@;
    push_u64(out, p.len() as u64);
    let mut i: usize = 0;
    while i < p.len()
        invariant
            0 <= i <= p@.len(),
            out@ == start + le_u64(p@.len() as u64) + params_entries_bytes(p@.take(i as int)),
        decreases p@.len() - i,
    {
        push_str(out, &p[i].0);
        encode_value(&p[i].1, out);
        proof {
            assert(p@.take(i + 1).drop_last() =~= p@.take(i as int));
        }
        i = i + 1;
    }
    assert(p@.take(p@.len() as int) =~= p@);
    assert(out@ =~= start + params_bytes(p@));
}

pub fn encode_parameter_spec(p: &ParameterSpec, out: &mut Vec<u8>)
    ensures
        final(out)@ == old(out)@ + le_u64(p@.len() as u64) + spec_entries_bytes(p@),
{
    let ghost start = out@;
    push_u64(out, p.len() as u64);
    let mut i: usize = 0;
    while i < p.len()
        invariant
            0 <= i <= p@.len(),
            out@ == start + le_u64(p@.len() as u64) + spec_entries_bytes(p@.take(i as int)),
        decreases p@.len() - i,
    {
        push_str(out, &p[i].0);
        encode_value_type(&p[i].1.type_, out);
        match &p[i].1.default {
            None => out.push(0u8),
            Some(v) => {
                out.push(1u8);
                encode_value(v, out);
            },
        }
        proof {
            assert(p@.take(i + 1).drop_last() =~= p@.take(i as int));
            assert(out@ =~= start + le_u64(p@.len() as u64) + spec_entries_bytes(p@.take(i + 1)));
        }
        i = i + 1;
    }
    assert(p@.take(p@.len() as int) =~= p@);
}

pub fn encode_step(s: &Step, out: &mut Vec<u8>)
    ensures
        final(out)@ == old(out)@ + step_bytes(*s),
{
    let ghost start = out@;
    match s {
        Step::EnvironmentStep(e) => {
            out.push(TAG_ENV_STEP);
            push_str(out, &e.action);
            encode_params(&e.parameters, out);
        },
        Step::InvokeFunctionStep(f) => {
            out.push(TAG_INVOKE_STEP);
            push_str(out, &f.invoke_fn);
            encode_params(&f.parameters, out);
        },
        Step::Null => out.push(0u8),
    }
    assert(out@ =~= start + step_bytes(*s));
}

pub fn encode_steps(s: &Vec<Step>, out: &mut Vec<u8>)
    ensures
        final(out)@ == old(out)@ + steps_bytes(s@),
{
    let ghost start = out@;
    push_u64(out, s.len() as u64);
    let mut i: usize = 0;
    while i < s.len()
        invariant
            0 <= i <= s@.len(),
            out@ == start + le_u64(s@.len() as u64) + steps_entries_bytes(s@.take(i as int)),
        decreases s@.len() - i,
    {
        encode_step(&s[i], out);
        proof {
            assert(s@.take(i + 1).drop_last() =~= s@.take(i as int));
        }
        i = i + 1;
    }
    assert(s@.take(s@.len() as int) =~= s@);
}

pub fn encode_strings(s: &Vec<String>, out: &mut Vec<u8>)
    ensures
        final(out)@ == old(out)@ + le_u64(s@.len() as u64) + strings_entries_bytes(s@),
{
    let ghost start = out@;
    push_u64(out, s.len() as u64);
    let mut i: usize = 0;
    while i < s.len()
        invariant
            0 <= i <= s@.len(),
            out@ == start + le_u64(s@.len() as u64) + strings_entries_bytes(s@.take(i as int)),
        decreases s@.len() - i,
    {
        push_str(out, &s[i]);
        proof {
            assert(s@.take(i + 1).drop_last() =~= s@.take(i as int));
        }
        i = i + 1;
    }
    assert(s@.take(s@.len() as int) =~= s@);
}

pub fn encode_env(e: &Environment, out: &mut Vec<u8>)
    ensures
        final(out)@ == old(out)@ + env_bytes(*e),
{
    let ghost start = out@;
    push_str(out, &e.name);
    encode_params(&e.parameters, out);
    encode_steps(&e.steps, out);
    assert(out@ =~= start + env_bytes(*e));
}

/// The canonical encoding of an import record.
pub fn encode_import(i: &Import) -> (r: Vec<u8>)
    ensures
        r@ == import_bytes(*i),
{
    let mut out: Vec<u8> = Vec::new();
    out.push(TAG_IMPORT);
    push_str(&mut out, &i.require);
    push_str(&mut out, &i.version);
    assert(out@ =~= import_bytes(*i));
    out
}

/// The canonical encoding of a function document.
pub fn encode_function(f: &FunctionDoc) -> (r: Vec<u8>)
    ensures
        r@ == function_bytes(*f),
{
    let mut out: Vec<u8> = Vec::new();
    out.push(TAG_FUNCTION);
    push_str(&mut out, &f.name);
    encode_parameter_spec(&f.parameter_spec, &mut out);
    encode_steps(&f.steps, &mut out);
    assert(out@ =~= function_bytes(*f));
    out
}

/// The canonical encoding of a build document.
pub fn encode_build(b: &BuildDoc) -> (r: Vec<u8>)
    ensures
        r@ == build_bytes(*b),
{
    let mut out: Vec<u8> = Vec::new();
    out.push(TAG_BUILD);
    push_str(&mut out, &b.name);
    let ghost a = out@;
    match &b.from {
        None => out.push(0u8),
        Some(f) => {
            out.push(1u8);
            push_str(&mut out, f);
        },
    }
    let ghost c = out@;
    match &b.depends {
        None => out.push(0u8),
        Some(d) => {
            out.push(1u8);
            encode_strings(d, &mut out);
        },
    }
    let ghost e = out@;
    push_u64(&mut out, b.envs.len() as u64);
    let mut i: usize = 0;
    while i < b.envs.len()
        invariant
            0 <= i <= b.envs@.len(),
            out@ == e + le_u64(b.envs@.len() as u64) + envs_entries_bytes(b.envs@.take(i as int)),
        decreases b.envs@.len() - i,
    {
        encode_env(&b.envs[i], &mut out);
        proof {
            assert(b.envs@.take(i + 1).drop_last() =~= b.envs@.take(i as int));
        }
        i = i + 1;
    }
    assert(b.envs@.take(b.envs@.len() as int) =~= b.envs@);
    assert(out@ =~= build_bytes(*b));
    out
}

/// The canonical encoding of a deploy document.
pub fn encode_deploy(d: &DeployDoc) -> (r: Vec<u8>)
    ensures
        r@ == deploy_bytes(*d),
{
    let mut out: Vec<u8> = Vec::new();
    out.push(TAG_DEPLOY);
    push_str(&mut out, &d.name);
    push_str(&mut out, &d.deploy_to);
    push_str(&mut out, &d.artifact);
    encode_params(&d.parameters, &mut out);
    assert(out@ =~= deploy_bytes(*d));
    out
}

} // verus!
