//! The command schema that an aggregate's command methods give rise to: one
//! command variant per method, named in upper camel case and sent on the wire
//! in shouty snake case.
//!
//! The input is a plain description of an `impl` block: its self type and,
//! for each item, what the schema reads of it.

use vstd::prelude::*;
use vstd::string::StrSliceExecFns;
use vstd::string::StringExecFns;

verus! {

/// How a method takes `self`.
#[derive(Debug, Clone, Copy, PartialEq, Eq, Structural)]
pub enum Receiver {
    /// The first parameter is not `self`, or there is none.
    Missing,
    /// `&self` or `self`.
    Shared,
    /// `&mut self` or `mut self`.
    Mutable,
}

/// A parameter after `self`.
#[derive(Debug, Clone)]
pub struct ArgDef {
    /// The identifier bound, or `None` for any other pattern.
    pub name: Option<String>,
    /// The type, as token text.
    pub ty: String,
}

/// What a method's return type looks like.
#[derive(Debug, Clone)]
pub enum ReturnShape {
    /// `Result<T, E>` written as one path segment: `T` as token text, and
    /// `E` as token text where the second argument is a type.
    Result { ok_type: String, error_type: Option<String> },
    /// Anything else, or no return type.
    Other,
}

#[derive(Debug, Clone)]
pub struct MethodDef {
    pub name: String,
    /// The outer doc comments, in order.
    pub docs: Vec<String>,
    pub receiver: Receiver,
    pub args: Vec<ArgDef>,
    pub output: ReturnShape,
}

#[derive(Debug, Clone)]
pub enum ImplItemDef {
    Method(MethodDef),
    /// A constant, a type or a macro.
    Other,
}

/// An `impl` block.
#[derive(Debug, Clone)]
pub struct ImplDef {
    /// The self type where it is a single identifier.
    pub self_ident: Option<String>,
    pub items: Vec<ImplItemDef>,
}

/// Why an `impl` block gives no schema; indices point into the block.
#[derive(Debug, Clone, Copy, PartialEq, Eq, Structural)]
pub enum SchemaError {
    /// The self type is not a plain identifier.
    NotOnStruct,
    /// An item that is not a method.
    UnexpectedItem { item: usize },
    /// A method without a `self` parameter.
    MissingSelf { item: usize },
    /// A method that takes `self` mutably.
    MutableSelf { item: usize },
    /// A parameter whose pattern is not a plain identifier.
    UnsupportedArgument { item: usize, arg: usize },
    /// A method that does not return `Result<_, awto_es::Error>`.
    WrongReturnType { item: usize },
}

#[derive(Debug, Clone)]
pub struct Arg {
    pub ident: String,
    pub ty: String,
}

#[derive(Debug, Clone)]
pub struct Method {
    pub args: Vec<Arg>,
    pub docs: Vec<String>,
    pub ident: String,
    /// The method returns a `Vec` of events rather than one.
    pub is_vec: bool,
}

/// The commands of one aggregate.
#[derive(Debug, Clone)]
pub struct AggregateCommands {
    pub command_ident: String,
    pub event_ident: String,
    pub ident: String,
    pub methods: Vec<Method>,
}

/// One variant of the command enum.
#[derive(Debug, Clone)]
pub struct CommandVariant {
    /// The variant's identifier.
    pub variant: String,
    /// The command's name on the wire.
    pub wire_name: String,
    /// The handler method.
    pub method: String,
    pub fields: Vec<Arg>,
    pub docs: Vec<String>,
    pub is_vec: bool,
}

/// What heck's upper camel case makes of `s`.
pub uninterp spec fn camel_case_of(s: Seq<char>) -> Seq<char>;

/// What heck's shouty snake case makes of `s`.
pub uninterp spec fn shouty_snake_case_of(s: Seq<char>) -> Seq<char>;

/// Relies on heck 0.3's `CamelCase::to_camel_case`, a function of the
/// characters alone.
#[verifier::external_body]
fn to_camel_case(s: &str) -> (r: String)
    ensures
        r@ == camel_case_of(s@),
{
    heck::CamelCase::to_camel_case(s)
}

/// Relies on heck 0.3's `ShoutySnekCase::TO_SHOUTY_SNEK_CASE`, a function of
/// the characters alone.
#[verifier::external_body]
fn to_shouty_snake_case(s: &str) -> (r: String)
    ensures
        r@ == shouty_snake_case_of(s@),
{
    heck::ShoutySnekCase::TO_SHOUTY_SNEK_CASE(s)
}

/// The keys of the JSON text `s` where it is an object.
pub uninterp spec fn json_object_keys(s: Seq<char>) -> Option<Seq<Seq<char>>>;

/// Relies on serde_json::from_str into a `serde_json::Value`: where `s` is
/// the text of a JSON object, its keys; otherwise nothing. The keys depend on
/// the text alone.
#[verifier::external_body]
fn object_keys(s: &str) -> (r: Option<Vec<String>>)
    ensures
        match r {
            Some(keys) => json_object_keys(s@) == Some(keys@.map_values(|k: String| k@)),
            None => json_object_keys(s@) is None,
        },
{
    match serde_json::from_str::<serde_json::Value>(s) {
        Ok(serde_json::Value::Object(map)) => Some(map.into_iter().map(|(k, _)| k).collect()),
        Ok(_) => None,
        Err(_) => None,
    }
}

/// `keys` names each of `fields`.
pub open spec fn covers_fields(keys: Seq<Seq<char>>, fields: Seq<Arg>) -> bool {
    forall|f: int| 0 <= f < fields.len() ==> keys.contains(#[trigger] fields[f].ident@)
}

/// A payload whose keys are `keys` (`None`: no JSON object) fits `fields`.
pub open spec fn payload_fits(keys: Option<Seq<Seq<char>>>, fields: Seq<Arg>) -> bool {
    match keys {
        Some(ks) => covers_fields(ks, fields),
        None => false,
    }
}

/// Whether `keys` names each of `fields`.
pub fn keys_cover_fields(keys: &Vec<String>, fields: &Vec<Arg>) -> (r: bool)
    ensures
        r == covers_fields(keys@.map_values(|k: String| k@), fields@),
{
    let ghost ks = keys@.map_values(|k: String| k@);
    let mut f: usize = 0;
    while f < fields.len()
        invariant
            ks == keys@.map_values(|k: String| k@),
            f <= fields@.len(),
            forall|g: int| 0 <= g < f ==> ks.contains(#[trigger] fields@[g].ident@),
        decreases fields@.len() - f,
    {
        let mut k: usize = 0;
        let mut found = false;
        while k < keys.len()
            invariant
                ks == keys@.map_values(|k: String| k@),
                k <= keys@.len(),
                f < fields@.len(),
                found ==> ks.contains(fields@[f as int].ident@),
                !found ==> forall|j: int| 0 <= j < k ==> ks[j] != fields@[f as int].ident@,
            decreases keys@.len() - k,
        {
            if str_eq(keys[k].as_str(), fields[f].ident.as_str()) {
                proof {
                    assert(ks[k as int] == fields@[f as int].ident@);
                }
                found = true;
            }
            k = k + 1;
        }
        if !found {
            proof {
                assert(ks.len() == keys@.len());
                assert(!ks.contains(fields@[f as int].ident@));
            }
            return false;
        }
        f = f + 1;
    }
    true
}

/// Whether `payload` is the text of a JSON object that names each of `fields`.
pub fn payload_matches(fields: &Vec<Arg>, payload: &str) -> (r: bool)
    ensures
        r == payload_fits(json_object_keys(payload@), fields@),
{
    match object_keys(payload) {
        Some(keys) => keys_cover_fields(&keys, fields),
        None => false,
    }
}

/// `s` without its leading underscores.
pub open spec fn trim_underscores(s: Seq<char>) -> Seq<char>
    decreases s.len(),
{
    if s.len() > 0 && s[0] == '_' {
        trim_underscores(s.skip(1))
    } else {
        s
    }
}

/// `s` without its spaces.
pub open spec fn without_spaces(s: Seq<char>) -> Seq<char>
    decreases s.len(),
{
    if s.len() == 0 {
        s
    } else if s.last() == ' ' {
        without_spaces(s.drop_last())
    } else {
        without_spaces(s.drop_last()).push(s.last())
    }
}

pub open spec fn starts_with(s: Seq<char>, prefix: Seq<char>) -> bool {
    s.len() >= prefix.len() && s.take(prefix.len() as int) == prefix
}

/// The error types a command method may name.
pub open spec fn is_command_error_type(t: Seq<char>) -> bool {
    let u = without_spaces(t);
    u == "Error"@ || u == "awto_es::Error"@ || u == "::awto_es::Error"@
}

/// The parameters before `upto` all bind an identifier.
pub open spec fn args_named(args: Seq<ArgDef>, upto: int) -> bool {
    forall|b: int| 0 <= b < upto ==> (#[trigger] args[b]).name is Some
}

/// Parameter `a` is the first that binds no identifier.
pub open spec fn first_unnamed(args: Seq<ArgDef>, a: int) -> bool {
    &&& 0 <= a < args.len()
    &&& args[a].name is None
    &&& args_named(args, a)
}

/// The return type is `Result<_, E>` with an error type a command may name.
pub open spec fn returns_command_result(output: ReturnShape) -> bool {
    match output {
        ReturnShape::Result { error_type: Some(e), .. } => is_command_error_type(e@),
        _ => false,
    }
}

/// The first reason why method `m`, the `i`-th item, is refused.
pub open spec fn method_error(m: MethodDef, i: int) -> Option<SchemaError> {
    if m.receiver == Receiver::Missing {
        Some(SchemaError::MissingSelf { item: i as usize })
    } else if m.receiver == Receiver::Mutable {
        Some(SchemaError::MutableSelf { item: i as usize })
    } else if exists|a: int| #[trigger] first_unnamed(m.args@, a) {
        let a = choose|a: int| #[trigger] first_unnamed(m.args@, a);
        Some(SchemaError::UnsupportedArgument { item: i as usize, arg: a as usize })
    } else if returns_command_result(m.output) {
        None
    } else {
        Some(SchemaError::WrongReturnType { item: i as usize })
    }
}

/// Every item is a method.
pub open spec fn all_methods(items: Seq<ImplItemDef>) -> bool {
    forall|j: int| 0 <= j < items.len() ==> #[trigger] items[j] is Method
}

/// The methods before `upto` are all accepted.
pub open spec fn methods_accepted(items: Seq<ImplItemDef>, upto: int) -> bool {
    forall|j: int| 0 <= j < upto ==> method_error(#[trigger] items[j]->Method_0, j) is None
}

/// The first `upto` parameters of `out` are those of `args`, leading
/// underscores trimmed.
pub open spec fn args_kept(args: Seq<ArgDef>, out: Seq<Arg>, upto: int) -> bool {
    forall|a: int|
        0 <= a < upto ==> {
            &&& (#[trigger] args[a]).name is Some
            &&& out[a].ident@ == trim_underscores(args[a].name->0@)
            &&& out[a].ty == args[a].ty
        }
}

/// `out` is what the schema keeps of method definition `m`.
pub open spec fn method_of(m: MethodDef, out: Method) -> bool {
    &&& out.ident@ == m.name@
    &&& out.docs@ == m.docs@
    &&& out.args@.len() == m.args@.len()
    &&& args_kept(m.args@, out.args@, out.args@.len() as int)
    &&& out.is_vec == match m.output {
        ReturnShape::Result { ok_type, .. } => starts_with(ok_type@, "Vec <"@),
        ReturnShape::Other => false,
    }
}

fn str_eq(s: &str, t: &str) -> (r: bool)
    ensures
        r == (s@ == t@),
{
    let n = s.unicode_len();
    if n != t.unicode_len() {
        return false;
    }
    let mut i: usize = 0;
    while i < n
        invariant
            n == s@.len() == t@.len(),
            i <= n,
            forall|j: int| 0 <= j < i ==> s@[j] == t@[j],
        decreases n - i,
    {
        if s.get_char(i) != t.get_char(i) {
            return false;
        }
        i = i + 1;
    }
    assert(s@ =~= t@);
    true
}

fn chars_eq(s: &Vec<char>, t: &str) -> (r: bool)
    ensures
        r == (s@ == t@),
{
    let n = s.len();
    if n != t.unicode_len() {
        return false;
    }
    let mut i: usize = 0;
    while i < n
        invariant
            n == s@.len() == t@.len(),
            i <= n,
            forall|j: int| 0 <= j < i ==> s@[j] == t@[j],
        decreases n - i,
    {
        if s[i] != t.get_char(i) {
            return false;
        }
        i = i + 1;
    }
    assert(s@ =~= t@);
    true
}

/// Whether `s` starts with `prefix`.
pub fn has_prefix(s: &str, prefix: &str) -> (r: bool)
    ensures
        r == starts_with(s@, prefix@),
{
    let n = prefix.unicode_len();
    if s.unicode_len() < n {
        return false;
    }
    let mut i: usize = 0;
    while i < n
        invariant
            n == prefix@.len() <= s@.len(),
            i <= n,
            forall|j: int| 0 <= j < i ==> s@[j] == prefix@[j],
        decreases n - i,
    {
        if s.get_char(i) != prefix.get_char(i) {
            return false;
        }
        i = i + 1;
    }
    assert(s@.take(n as int) =~= prefix@);
    true
}

/// `s` without its leading underscores.
pub fn trim_leading_underscores(s: &str) -> (r: String)
    ensures
        r@ == trim_underscores(s@),
{
    let n = s.unicode_len();
    let mut k: usize = 0;
    assert(s@.skip(0) =~= s@);
    while k < n && s.get_char(k) == '_'
        invariant
            n == s@.len(),
            k <= n,
            trim_underscores(s@) == trim_underscores(s@.skip(k as int)),
        decreases n - k,
    {
        proof {
            assert(s@.skip(k as int).skip(1) =~= s@.skip(k + 1));
        }
        k = k + 1;
    }
    String::from_str(s.substring_char(k, n))
}

/// The characters of `s` but its spaces.
pub fn strip_spaces(s: &str) -> (r: Vec<char>)
    ensures
        r@ == without_spaces(s@),
{
    let n = s.unicode_len();
    let mut r: Vec<char> = Vec::new();
    let mut i: usize = 0;
    while i < n
        invariant
            n == s@.len(),
            i <= n,
            r@ == without_spaces(s@.take(i as int)),
        decreases n - i,
    {
        let c = s.get_char(i);
        proof {
            assert(s@.take(i + 1).drop_last() =~= s@.take(i as int));
        }
        if c != ' ' {
            r.push(c);
        }
        i = i + 1;
    }
    assert(s@.take(n as int) =~= s@);
    r
}

/// Whether `t` is an error type a command method may name.
pub fn is_command_error(t: &str) -> (r: bool)
    ensures
        r == is_command_error_type(t@),
{
    let u = strip_spaces(t);
    chars_eq(&u, "Error") || chars_eq(&u, "awto_es::Error") || chars_eq(&u, "::awto_es::Error")
}

impl Arg {
    /// A copy of this parameter.
    pub fn copied(&self) -> (r: Arg)
        ensures
            r == *self,
    {
        Arg { ident: self.ident.clone(), ty: self.ty.clone() }
    }
}

/// A copy of `args`.
fn copy_args(args: &Vec<Arg>) -> (r: Vec<Arg>)
    ensures
        r@ == args@,
{
    let mut r: Vec<Arg> = Vec::new();
    let mut k: usize = 0;
    while k < args.len()
        invariant
            k <= args@.len(),
            r@ == args@.take(k as int),
        decreases args@.len() - k,
    {
        r.push(args[k].copied());
        proof {
            assert(r@ =~= args@.take(k + 1));
        }
        k = k + 1;
    }
    assert(args@.take(k as int) =~= args@);
    r
}

/// `v` is the command variant of handler `m`.
pub open spec fn variant_of(m: Method, v: CommandVariant) -> bool {
    &&& v.variant@ == camel_case_of(m.ident@)
    &&& v.wire_name@ == shouty_snake_case_of(m.ident@)
    &&& v.method@ == m.ident@
    &&& v.fields@ == m.args@
    &&& v.docs@ == m.docs@
    &&& v.is_vec == m.is_vec
}

impl AggregateCommands {
    /// The command enum's variants, one for each method, in order.
    pub fn command_variants(&self) -> (r: Vec<CommandVariant>)
        ensures
            r@.len() == self.methods@.len(),
            forall|k: int| 0 <= k < r@.len() ==> variant_of(self.methods@[k], #[trigger] r@[k]),
    {
        let mut r: Vec<CommandVariant> = Vec::new();
        let mut k: usize = 0;
        while k < self.methods.len()
            invariant
                k <= self.methods@.len(),
                r@.len() == k,
                forall|j: int| 0 <= j < k ==> variant_of(self.methods@[j], #[trigger] r@[j]),
            decreases self.methods@.len() - k,
        {
            let m = &self.methods[k];
            r.push(
                CommandVariant {
                    variant: to_camel_case(m.ident.as_str()),
                    wire_name: to_shouty_snake_case(m.ident.as_str()),
                    method: m.ident.clone(),
                    fields: copy_args(&m.args),
                    docs: m.docs.clone(),
                    is_vec: m.is_vec,
                },
            );
            k = k + 1;
        }
        r
    }

    /// The commands of the aggregate that `input` implements: every item must
    /// be a method that takes `&self`, binds each parameter to an identifier
    /// and returns `Result<_, awto_es::Error>`.
    pub fn new(input: &ImplDef) -> (r: Result<AggregateCommands, SchemaError>)
        ensures
            match r {
                Ok(c) => {
                    &&& input.self_ident is Some
                    &&& c.ident@ == input.self_ident->0@
                    &&& c.command_ident@ == c.ident@ + "Command"@
                    &&& c.event_ident@ == c.ident@ + "Event"@
                    &&& c.methods@.len() == input.items@.len()
                    &&& all_methods(input.items@)
                    &&& methods_accepted(input.items@, input.items@.len() as int)
                    &&& forall|i: int|
                        0 <= i < input.items@.len() ==> method_of(
                            #[trigger] input.items@[i]->Method_0,
                            c.methods@[i],
                        )
                },
                Err(SchemaError::NotOnStruct) => input.self_ident is None,
                Err(SchemaError::UnexpectedItem { item }) => {
                    &&& input.self_ident is Some
                    &&& item < input.items@.len()
                    &&& input.items@[item as int] is Other
                    &&& forall|j: int| 0 <= j < item ==> #[trigger] input.items@[j] is Method
                },
                Err(e) => {
                    &&& input.self_ident is Some
                    &&& all_methods(input.items@)
                    &&& exists|i: int|
                        0 <= i < input.items@.len() && #[trigger] methods_accepted(input.items@, i)
                            && method_error(input.items@[i]->Method_0, i) == Some(e)
                },
            },
    {
        if input.self_ident.is_none() {
            return Err(SchemaError::NotOnStruct);
        }
        let ident = match &input.self_ident {
            Some(i) => i.clone(),
            None => {
                return Err(SchemaError::NotOnStruct);
            },
        };
        let n = input.items.len();
        let mut i: usize = 0;
        while i < n
            invariant
                n == input.items@.len(),
                input.self_ident is Some,
                i <= n,
                forall|j: int| 0 <= j < i ==> #[trigger] input.items@[j] is Method,
            decreases n - i,
        {
            match &input.items[i] {
                ImplItemDef::Method(_) => {},
                ImplItemDef::Other => {
                    return Err(SchemaError::UnexpectedItem { item: i });
                },
            }
            i = i + 1;
        }
        let mut methods: Vec<Method> = Vec::new();
        let mut i: usize = 0;
        while i < n
            invariant
                n == input.items@.len(),
                input.self_ident is Some,
                i <= n,
                all_methods(input.items@),
                methods@.len() == i,
                methods_accepted(input.items@, i as int),
                forall|j: int|
                    0 <= j < i ==> method_of(#[trigger] input.items@[j]->Method_0, methods@[j]),
            decreases n - i,
        {
            proof {
                assert(input.items@[i as int] is Method);
            }
            let m = match &input.items[i] {
                ImplItemDef::Method(m) => m,
                ImplItemDef::Other => {
                    return Err(SchemaError::UnexpectedItem { item: i });
                },
            };
            match Self::method(m, i) {
                Ok(out) => methods.push(out),
                Err(e) => {
                    proof {
                        assert(methods_accepted(input.items@, i as int));
                    }
                    return Err(e);
                },
            }
            i = i + 1;
        }
        let command_ident = ident.clone().concat("Command");
        let event_ident = ident.clone().concat("Event");
        Ok(AggregateCommands { command_ident, event_ident, ident, methods })
    }

    /// What the schema keeps of method `m`, the `i`-th item, or why it is refused.
    fn method(m: &MethodDef, i: usize) -> (r: Result<Method, SchemaError>)
        ensures
            match r {
                Ok(out) => method_error(*m, i as int) is None && method_of(*m, out),
                Err(e) => method_error(*m, i as int) == Some(e),
            },
    {
        match m.receiver {
            Receiver::Missing => {
                return Err(SchemaError::MissingSelf { item: i });
            },
            Receiver::Mutable => {
                return Err(SchemaError::MutableSelf { item: i });
            },
            Receiver::Shared => {},
        }
        let mut args: Vec<Arg> = Vec::new();
        let mut a: usize = 0;
        while a < m.args.len()
            invariant
                a <= m.args@.len(),
                args@.len() == a,
                m.receiver == Receiver::Shared,
                args_kept(m.args@, args@, a as int),
            decreases m.args@.len() - a,
        {
            match &m.args[a].name {
                Some(name) => {
                    let ident = trim_leading_underscores(name.as_str());
                    args.push(Arg { ident, ty: m.args[a].ty.clone() });
                },
                None => {
                    proof {
                        assert(first_unnamed(m.args@, a as int));
                        let c = choose|c: int| #[trigger] first_unnamed(m.args@, c);
                        if c < a {
                            assert(m.args@[c].name is Some);
                        } else if c > a {
                            assert(m.args@[a as int].name is Some);
                        }
                    }
                    return Err(SchemaError::UnsupportedArgument { item: i, arg: a });
                },
            }
            a = a + 1;
        }
        proof {
            if exists|c: int| #[trigger] first_unnamed(m.args@, c) {
                let c = choose|c: int| #[trigger] first_unnamed(m.args@, c);
                assert(m.args@[c].name is Some);
            }
        }
        let is_vec = match &m.output {
            ReturnShape::Result { ok_type, error_type: Some(e) } => {
                if !is_command_error(e.as_str()) {
                    return Err(SchemaError::WrongReturnType { item: i });
                }
                has_prefix(ok_type.as_str(), "Vec <")
            },
            _ => {
                return Err(SchemaError::WrongReturnType { item: i });
            },
        };
        Ok(Method { args, docs: m.docs.clone(), ident: m.name.clone(), is_vec })
    }
}

/// The first variant whose wire name is `name`, or `None` where no
/// variant has it.
pub fn find_command(variants: &Vec<CommandVariant>, name: &str) -> (r: Option<usize>)
    ensures
        match r {
            Some(k) => k < variants@.len() && variants@[k as int].wire_name@ == name@ && forall|j: int|
                0 <= j < k ==> (#[trigger] variants@[j]).wire_name@ != name@,
            None => forall|j: int| 0 <= j < variants@.len() ==> (#[trigger] variants@[j]).wire_name@ != name@,
        },
{
    let mut k: usize = 0;
    while k < variants.len()
        invariant
            k <= variants@.len(),
            forall|j: int| 0 <= j < k ==> (#[trigger] variants@[j]).wire_name@ != name@,
        decreases variants@.len() - k,
    {
        if str_eq(variants[k].wire_name.as_str(), name) {
            return Some(k);
        }
        k = k + 1;
    }
    None
}

} // verus!
