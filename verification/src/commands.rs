//! The command interpreter.
//!
//! A request is an array-shaped wire value whose first element names the
//! command; the remaining elements are its arguments.  Each command has its
//! own argument grammar, read positionally and left to right.  The
//! interpreter either produces a typed command or a classified error; the
//! spec functions here state the outcome exactly, argument by argument,
//! and every executable function is proved to return precisely that.

use vstd::prelude::*;

use crate::bytes::{bytes_eq, clone_bytes};
use crate::decimal::{parse_u64, spec_parse_u64};
use crate::resp::{lemma_model_seq, model_seq, spec_arr, spec_text, ConvertErr, RESPType, Resp};

verus! {

broadcast use vstd::std_specs::vec::group_vec_axioms;

/// Why a request was rejected.
#[derive(Debug, PartialEq, Eq)]
pub enum CommandErr {
    /// Too few arguments: the count required, and the count provided.
    LackArgs(usize, usize),
    /// A null bulk string stood where a scalar value is required.
    NullStr,
    /// An error string or array stood where a scalar value is required.
    WrongValueType,
    /// The named command is not in the supported set.
    UnknownCommand(Vec<u8>),
    /// An argument could not be read in its expected shape.
    Convert(ConvertErr),
    /// An expiry argument is not unsigned decimal text in range.
    NotNumber,
}

/// The mathematical shape of a [`CommandErr`].
pub enum CommandErrV {
    LackArgs(usize, usize),
    NullStr,
    WrongValueType,
    UnknownCommand(Seq<u8>),
    Convert(ConvertErr),
    NotNumber,
}

impl CommandErr {
    pub open spec fn model(self) -> CommandErrV {
        match self {
            CommandErr::LackArgs(need, got) => CommandErrV::LackArgs(need, got),
            CommandErr::NullStr => CommandErrV::NullStr,
            CommandErr::WrongValueType => CommandErrV::WrongValueType,
            CommandErr::UnknownCommand(name) => CommandErrV::UnknownCommand(name@),
            CommandErr::Convert(e) => CommandErrV::Convert(e),
            CommandErr::NotNumber => CommandErrV::NotNumber,
        }
    }
}

/// A scalar command argument.
#[derive(Debug, PartialEq, Eq)]
pub enum Value {
    Num(i64),
    BSStr(Vec<u8>),
    Str(Vec<u8>),
}

/// The mathematical shape of a [`Value`].
pub enum ValueV {
    Num(i64),
    BSStr(Seq<u8>),
    Str(Seq<u8>),
}

impl Value {
    pub open spec fn model(self) -> ValueV {
        match self {
            Value::Num(n) => ValueV::Num(n),
            Value::BSStr(b) => ValueV::BSStr(b@),
            Value::Str(t) => ValueV::Str(t@),
        }
    }
}

/// What converting a wire value into a scalar argument yields.
pub open spec fn spec_value(v: Resp) -> Result<ValueV, CommandErrV> {
    match v {
        Resp::Integer(n) => Ok(ValueV::Num(n)),
        Resp::BulkStr(Some(b)) => Ok(ValueV::BSStr(b)),
        Resp::BulkStr(None) => Err(CommandErrV::NullStr),
        Resp::Str(t) => Ok(ValueV::Str(t)),
        _ => Err(CommandErrV::WrongValueType),
    }
}

impl Value {
    /// Converts a wire value into a scalar argument, exactly as
    /// [`spec_value`] says.
    pub fn try_from(v: &RESPType) -> (r: Result<Value, CommandErr>)
        ensures
            match r {
                Ok(val) => spec_value(v.model()) == Ok::<ValueV, CommandErrV>(val.model()),
                Err(e) => spec_value(v.model()) == Err::<ValueV, CommandErrV>(e.model()),
            },
    {
        match v {
            RESPType::Integer(n) => Ok(Value::Num(*n)),
            RESPType::BulkStr(Some(b)) => Ok(Value::BSStr(clone_bytes(b))),
            RESPType::BulkStr(None) => Err(CommandErr::NullStr),
            RESPType::Str(t) => Ok(Value::Str(clone_bytes(t))),
            _ => Err(CommandErr::WrongValueType),
        }
    }
}

/// A SET existence mode: write only if absent (NX) or only if present (XX).
#[derive(Debug, PartialEq, Eq, Structural, Clone, Copy)]
pub enum SetX {
    NX,
    XX,
}

/// A SET expiry, stored as a count of milliseconds.
#[derive(Debug, PartialEq, Eq, Structural, Clone, Copy)]
pub struct Expiry {
    pub millis: u128,
}

impl Expiry {
    pub fn from_secs(secs: u64) -> (r: Expiry)
        ensures
            r.millis == secs as int * 1000,
    {
        Expiry { millis: secs as u128 * 1000 }
    }

    pub fn from_millis(ms: u64) -> (r: Expiry)
        ensures
            r.millis == ms as int,
    {
        Expiry { millis: ms as u128 }
    }
}

// The command keywords, as lower-case ASCII bytes.
pub open spec fn kw_set() -> Seq<u8> {
    seq![115u8, 101u8, 116u8]
}

pub open spec fn kw_get() -> Seq<u8> {
    seq![103u8, 101u8, 116u8]
}

pub open spec fn kw_getset() -> Seq<u8> {
    seq![103u8, 101u8, 116u8, 115u8, 101u8, 116u8]
}

pub open spec fn kw_strlen() -> Seq<u8> {
    seq![115u8, 116u8, 114u8, 108u8, 101u8, 110u8]
}

pub open spec fn kw_exists() -> Seq<u8> {
    seq![101u8, 120u8, 105u8, 115u8, 116u8, 115u8]
}

pub open spec fn kw_del() -> Seq<u8> {
    seq![100u8, 101u8, 108u8]
}

pub open spec fn kw_ex() -> Seq<u8> {
    seq![101u8, 120u8]
}

pub open spec fn kw_px() -> Seq<u8> {
    seq![112u8, 120u8]
}

pub open spec fn kw_nx() -> Seq<u8> {
    seq![110u8, 120u8]
}

pub open spec fn kw_xx() -> Seq<u8> {
    seq![120u8, 120u8]
}

/// SET key value, with an optional expiry (`ex` seconds or `px`
/// milliseconds) and an optional existence mode (`nx` or `xx`).
#[derive(Debug, PartialEq, Eq)]
pub struct SetCmd {
    pub key: Vec<u8>,
    pub value: Value,
    pub expire: Option<Expiry>,
    pub setx: Option<SetX>,
}

/// The mathematical shape of a [`SetCmd`].
pub struct SetCmdV {
    pub key: Seq<u8>,
    pub value: ValueV,
    pub expire: Option<Expiry>,
    pub setx: Option<SetX>,
}

impl SetCmd {
    pub open spec fn model(self) -> SetCmdV {
        SetCmdV {
            key: self.key@,
            value: self.value.model(),
            expire: self.expire,
            setx: self.setx,
        }
    }
}

/// GET key.
#[derive(Debug, PartialEq, Eq)]
pub struct Get(pub Vec<u8>);

impl Get {
    pub open spec fn model(self) -> Seq<u8> {
        self.0@
    }
}

/// GETSET key value.
#[derive(Debug, PartialEq, Eq)]
pub struct GetSet {
    pub key: Vec<u8>,
    pub val: Value,
}

/// The mathematical shape of a [`GetSet`].
pub struct GetSetV {
    pub key: Seq<u8>,
    pub val: ValueV,
}

impl GetSet {
    pub open spec fn model(self) -> GetSetV {
        GetSetV { key: self.key@, val: self.val.model() }
    }
}

/// STRLEN key.
#[derive(Debug, PartialEq, Eq)]
pub struct StrLen(pub Vec<u8>);

impl StrLen {
    pub open spec fn model(self) -> Seq<u8> {
        self.0@
    }
}

/// EXISTS key.
#[derive(Debug, PartialEq, Eq)]
pub struct Exists(pub Vec<u8>);

impl Exists {
    pub open spec fn model(self) -> Seq<u8> {
        self.0@
    }
}

/// DEL key [key ...]: the keys in order, duplicates kept.
#[derive(Debug, PartialEq, Eq)]
pub struct Del(pub Vec<Vec<u8>>);

/// The contents of a list of keys.
pub open spec fn keys_model(ks: Seq<Vec<u8>>) -> Seq<Seq<u8>> {
    Seq::new(ks.len(), |i: int| ks[i]@)
}

impl Del {
    pub open spec fn model(self) -> Seq<Seq<u8>> {
        keys_model(self.0@)
    }
}

/// A fully validated request.
#[derive(Debug, PartialEq, Eq)]
pub enum RedisCommands {
    SetCmd(SetCmd),
    Get(Get),
    GetSet(GetSet),
    StrLen(StrLen),
    Exists(Exists),
    Del(Del),
}

/// The mathematical shape of a [`RedisCommands`].
pub enum RedisCommandsV {
    SetCmd(SetCmdV),
    Get(Seq<u8>),
    GetSet(GetSetV),
    StrLen(Seq<u8>),
    Exists(Seq<u8>),
    Del(Seq<Seq<u8>>),
}

impl RedisCommands {
    pub open spec fn model(self) -> RedisCommandsV {
        match self {
            RedisCommands::SetCmd(c) => RedisCommandsV::SetCmd(c.model()),
            RedisCommands::Get(c) => RedisCommandsV::Get(c.model()),
            RedisCommands::GetSet(c) => RedisCommandsV::GetSet(c.model()),
            RedisCommands::StrLen(c) => RedisCommandsV::StrLen(c.model()),
            RedisCommands::Exists(c) => RedisCommandsV::Exists(c.model()),
            RedisCommands::Del(c) => RedisCommandsV::Del(c.model()),
        }
    }
}

/// The trailing existence-mode token of SET: a recognized token selects the
/// mode, any other text is silently ignored, and a non-text argument is an
/// error.
pub open spec fn spec_setx(
    key: Seq<u8>,
    value: ValueV,
    expire: Option<Expiry>,
    rest: Seq<Resp>,
) -> Result<SetCmdV, CommandErrV> {
    if rest.len() >= 1 {
        match spec_text(rest[0]) {
            Err(e) => Err(CommandErrV::Convert(e)),
            Ok(t) => {
                let setx = if t == kw_nx() {
                    Some(SetX::NX)
                } else if t == kw_xx() {
                    Some(SetX::XX)
                } else {
                    None
                };
                Ok(SetCmdV { key, value, expire, setx })
            },
        }
    } else {
        Ok(SetCmdV { key, value, expire, setx: None })
    }
}

/// The optional expiry tokens of SET: `ex` or `px` consumes the next
/// argument as an unsigned decimal count; any other text consumes nothing.
pub open spec fn spec_set_opts(
    key: Seq<u8>,
    value: ValueV,
    rest: Seq<Resp>,
) -> Result<SetCmdV, CommandErrV> {
    if rest.len() >= 2 {
        match spec_text(rest[0]) {
            Err(e) => Err(CommandErrV::Convert(e)),
            Ok(t) => {
                if t == kw_ex() || t == kw_px() {
                    match spec_text(rest[1]) {
                        Err(e) => Err(CommandErrV::Convert(e)),
                        Ok(numt) => match spec_parse_u64(numt) {
                            None => Err(CommandErrV::NotNumber),
                            Some(u) => {
                                let expire = if t == kw_ex() {
                                    Expiry { millis: (u * 1000) as u128 }
                                } else {
                                    Expiry { millis: u as u128 }
                                };
                                spec_setx(key, value, Some(expire), rest.skip(2))
                            },
                        },
                    }
                } else {
                    spec_setx(key, value, None, rest)
                }
            },
        }
    } else {
        spec_setx(key, value, None, rest)
    }
}

/// The SET grammar over its argument list.
pub open spec fn spec_set(args: Seq<Resp>) -> Result<SetCmdV, CommandErrV> {
    if args.len() < 2 {
        Err(CommandErrV::LackArgs(2, args.len() as usize))
    } else {
        match spec_text(args[0]) {
            Err(e) => Err(CommandErrV::Convert(e)),
            Ok(key) => match spec_value(args[1]) {
                Err(e) => Err(e),
                Ok(value) => spec_set_opts(key, value, args.skip(2)),
            },
        }
    }
}

/// The GET grammar: one key, extra arguments ignored.
pub open spec fn spec_get(args: Seq<Resp>) -> Result<Seq<u8>, CommandErrV> {
    if args.len() == 0 {
        Err(CommandErrV::LackArgs(1, 0))
    } else {
        match spec_text(args[0]) {
            Ok(t) => Ok(t),
            Err(e) => Err(CommandErrV::Convert(e)),
        }
    }
}

/// The GETSET grammar: exactly a key and a value.
pub open spec fn spec_getset(args: Seq<Resp>) -> Result<GetSetV, CommandErrV> {
    if args.len() != 2 {
        Err(CommandErrV::LackArgs(2, args.len() as usize))
    } else {
        match spec_text(args[0]) {
            Err(e) => Err(CommandErrV::Convert(e)),
            Ok(key) => match spec_value(args[1]) {
                Err(e) => Err(e),
                Ok(val) => Ok(GetSetV { key, val }),
            },
        }
    }
}

/// The STRLEN and EXISTS grammar: exactly one key.
pub open spec fn spec_one_key(args: Seq<Resp>) -> Result<Seq<u8>, CommandErrV> {
    if args.len() != 1 {
        Err(CommandErrV::LackArgs(1, args.len() as usize))
    } else {
        match spec_text(args[0]) {
            Ok(t) => Ok(t),
            Err(e) => Err(CommandErrV::Convert(e)),
        }
    }
}

/// The texts of all arguments, left to right; the first failure wins.
pub open spec fn spec_texts(args: Seq<Resp>) -> Result<Seq<Seq<u8>>, ConvertErr>
    decreases args.len(),
{
    if args.len() == 0 {
        Ok(Seq::empty())
    } else {
        match spec_text(args[0]) {
            Err(e) => Err(e),
            Ok(t) => match spec_texts(args.skip(1)) {
                Ok(ts) => Ok(seq![t] + ts),
                Err(e) => Err(e),
            },
        }
    }
}

/// DEL reads every argument's text in order, duplicates kept: the key list
/// has one entry per argument, and the i-th key is the i-th argument's
/// text.
pub proof fn lemma_texts_in_order(args: Seq<Resp>)
    ensures
        spec_texts(args) matches Ok(ts) ==> {
            &&& ts.len() == args.len()
            &&& forall|i: int|
                0 <= i < args.len() ==> spec_text(#[trigger] args[i]) == Ok::<Seq<u8>, ConvertErr>(
                    ts[i],
                )
        },
    decreases args.len(),
{
    if args.len() > 0 {
        lemma_texts_in_order(args.skip(1));
        match spec_text(args[0]) {
            Ok(t) => {
                match spec_texts(args.skip(1)) {
                    Ok(ts) => {
                        assert forall|i: int| 0 <= i < args.len() implies spec_text(
                            #[trigger] args[i],
                        ) == Ok::<Seq<u8>, ConvertErr>((seq![t] + ts)[i]) by {
                            if i > 0 {
                                assert(args.skip(1)[i - 1] == args[i]);
                            }
                        }
                    },
                    Err(_) => {},
                }
            },
            Err(_) => {},
        }
    }
}

/// The DEL grammar: one or more keys, order preserved, duplicates kept.
pub open spec fn spec_del(args: Seq<Resp>) -> Result<Seq<Seq<u8>>, CommandErrV> {
    if args.len() == 0 {
        Err(CommandErrV::LackArgs(1, 0))
    } else {
        match spec_texts(args) {
            Ok(ts) => Ok(ts),
            Err(e) => Err(CommandErrV::Convert(e)),
        }
    }
}

/// What interpreting a wire value as a request yields: the top value must
/// be a non-empty array, its first element names the command, and the named
/// command's grammar decides the rest.
pub open spec fn spec_interpret(v: Resp) -> Result<RedisCommandsV, CommandErrV> {
    match spec_arr(v) {
        Err(e) => Err(CommandErrV::Convert(e)),
        Ok(arr) => match spec_text(arr[0]) {
            Err(e) => Err(CommandErrV::Convert(e)),
            Ok(name) => {
                let args = arr.skip(1);
                if name == kw_set() {
                    match spec_set(args) {
                        Ok(c) => Ok(RedisCommandsV::SetCmd(c)),
                        Err(e) => Err(e),
                    }
                } else if name == kw_get() {
                    match spec_get(args) {
                        Ok(k) => Ok(RedisCommandsV::Get(k)),
                        Err(e) => Err(e),
                    }
                } else if name == kw_getset() {
                    match spec_getset(args) {
                        Ok(c) => Ok(RedisCommandsV::GetSet(c)),
                        Err(e) => Err(e),
                    }
                } else if name == kw_strlen() {
                    match spec_one_key(args) {
                        Ok(k) => Ok(RedisCommandsV::StrLen(k)),
                        Err(e) => Err(e),
                    }
                } else if name == kw_exists() {
                    match spec_one_key(args) {
                        Ok(k) => Ok(RedisCommandsV::Exists(k)),
                        Err(e) => Err(e),
                    }
                } else if name == kw_del() {
                    match spec_del(args) {
                        Ok(ks) => Ok(RedisCommandsV::Del(ks)),
                        Err(e) => Err(e),
                    }
                } else {
                    Err(CommandErrV::UnknownCommand(name))
                }
            },
        },
    }
}

/// Interpretation is a function of the value alone: two interpretations of
/// the same value are the same command, or the same error.  There is no
/// hidden state.
pub proof fn lemma_interpret_deterministic(
    v: Resp,
    r1: Result<RedisCommandsV, CommandErrV>,
    r2: Result<RedisCommandsV, CommandErrV>,
)
    requires
        r1 == spec_interpret(v),
        r2 == spec_interpret(v),
    ensures
        r1 == r2,
{
}

impl SetCmd {
    /// Reads the SET grammar from `args[start..]`, exactly as [`spec_set`]
    /// says.
    pub fn try_from(args: &Vec<RESPType>, start: usize) -> (r: Result<SetCmd, CommandErr>)
        requires
            start <= args.len(),
        ensures
            ({
                let argv = model_seq(args@).skip(start as int);
                match r {
                    Ok(c) => spec_set(argv) == Ok::<SetCmdV, CommandErrV>(c.model()),
                    Err(e) => spec_set(argv) == Err::<SetCmdV, CommandErrV>(e.model()),
                }
            }),
    {
        let ghost argv = model_seq(args@).skip(start as int);
        proof {
            lemma_model_seq(args@);
        }
        let n = args.len() - start;
        if n < 2 {
            return Err(CommandErr::LackArgs(2, n));
        }
        proof {
            assert(argv[0] == args@[start as int].model());
            assert(argv[1] == args@[start + 1 as int].model());
        }
        let key = match args[start].get_string() {
            Ok(t) => clone_bytes(t),
            Err(e) => {
                return Err(CommandErr::Convert(e));
            },
        };
        let value = match Value::try_from(&args[start + 1]) {
            Ok(v) => v,
            Err(e) => {
                return Err(e);
            },
        };
        let ghost rest = argv.skip(2);
        let mut cursor = start + 2;
        proof {
            assert(rest =~= model_seq(args@).skip(cursor as int));
        }
        let mut expire: Option<Expiry> = None;
        let mut consumed: bool = false;
        if args.len() - cursor >= 2 {
            proof {
                assert(rest[0] == args@[cursor as int].model());
                assert(rest[1] == args@[cursor + 1 as int].model());
            }
            let t = match args[cursor].get_string() {
                Ok(t) => t,
                Err(e) => {
                    return Err(CommandErr::Convert(e));
                },
            };
            let w_ex = vec![101u8, 120u8];
            let w_px = vec![112u8, 120u8];
            proof {
                assert(w_ex@ =~= kw_ex());
                assert(w_px@ =~= kw_px());
            }
            let is_ex = bytes_eq(t, &w_ex);
            let is_px = bytes_eq(t, &w_px);
            if is_ex || is_px {
                let numt = match args[cursor + 1].get_string() {
                    Ok(x) => x,
                    Err(e) => {
                        return Err(CommandErr::Convert(e));
                    },
                };
                let num = match parse_u64(numt) {
                    Some(u) => u,
                    None => {
                        return Err(CommandErr::NotNumber);
                    },
                };
                expire = if is_ex {
                    Some(Expiry::from_secs(num))
                } else {
                    Some(Expiry::from_millis(num))
                };
                cursor = cursor + 2;
                consumed = true;
            }
        }
        let ghost rest2 = if consumed {
            rest.skip(2)
        } else {
            rest
        };
        proof {
            assert(rest2 =~= model_seq(args@).skip(cursor as int));
        }
        let mut setx: Option<SetX> = None;
        if args.len() - cursor >= 1 {
            proof {
                assert(rest2[0] == args@[cursor as int].model());
            }
            let t = match args[cursor].get_string() {
                Ok(t) => t,
                Err(e) => {
                    return Err(CommandErr::Convert(e));
                },
            };
            let w_nx = vec![110u8, 120u8];
            let w_xx = vec![120u8, 120u8];
            proof {
                assert(w_nx@ =~= kw_nx());
                assert(w_xx@ =~= kw_xx());
            }
            if bytes_eq(t, &w_nx) {
                setx = Some(SetX::NX);
            } else if bytes_eq(t, &w_xx) {
                setx = Some(SetX::XX);
            }
        }
        Ok(SetCmd { key, value, expire, setx })
    }
}

impl Get {
    /// Reads the GET grammar from `args[start..]`, exactly as [`spec_get`]
    /// says.
    pub fn try_from(args: &Vec<RESPType>, start: usize) -> (r: Result<Get, CommandErr>)
        requires
            start <= args.len(),
        ensures
            ({
                let argv = model_seq(args@).skip(start as int);
                match r {
                    Ok(c) => spec_get(argv) == Ok::<Seq<u8>, CommandErrV>(c.model()),
                    Err(e) => spec_get(argv) == Err::<Seq<u8>, CommandErrV>(e.model()),
                }
            }),
    {
        proof {
            lemma_model_seq(args@);
        }
        if args.len() - start == 0 {
            return Err(CommandErr::LackArgs(1, 0));
        }
        match args[start].get_string() {
            Ok(t) => Ok(Get(clone_bytes(t))),
            Err(e) => Err(CommandErr::Convert(e)),
        }
    }
}

impl GetSet {
    /// Reads the GETSET grammar from `args[start..]`, exactly as
    /// [`spec_getset`] says.
    pub fn try_from(args: &Vec<RESPType>, start: usize) -> (r: Result<GetSet, CommandErr>)
        requires
            start <= args.len(),
        ensures
            ({
                let argv = model_seq(args@).skip(start as int);
                match r {
                    Ok(c) => spec_getset(argv) == Ok::<GetSetV, CommandErrV>(c.model()),
                    Err(e) => spec_getset(argv) == Err::<GetSetV, CommandErrV>(e.model()),
                }
            }),
    {
        proof {
            lemma_model_seq(args@);
        }
        let n = args.len() - start;
        if n != 2 {
            return Err(CommandErr::LackArgs(2, n));
        }
        let key = match args[start].get_string() {
            Ok(t) => clone_bytes(t),
            Err(e) => {
                return Err(CommandErr::Convert(e));
            },
        };
        match Value::try_from(&args[start + 1]) {
            Ok(val) => Ok(GetSet { key, val }),
            Err(e) => Err(e),
        }
    }
}

impl StrLen {
    /// Reads the STRLEN grammar from `args[start..]`, exactly as
    /// [`spec_one_key`] says.
    pub fn try_from(args: &Vec<RESPType>, start: usize) -> (r: Result<StrLen, CommandErr>)
        requires
            start <= args.len(),
        ensures
            ({
                let argv = model_seq(args@).skip(start as int);
                match r {
                    Ok(c) => spec_one_key(argv) == Ok::<Seq<u8>, CommandErrV>(c.model()),
                    Err(e) => spec_one_key(argv) == Err::<Seq<u8>, CommandErrV>(e.model()),
                }
            }),
    {
        proof {
            lemma_model_seq(args@);
        }
        let n = args.len() - start;
        if n != 1 {
            return Err(CommandErr::LackArgs(1, n));
        }
        match args[start].get_string() {
            Ok(t) => Ok(StrLen(clone_bytes(t))),
            Err(e) => Err(CommandErr::Convert(e)),
        }
    }
}

impl Exists {
    /// Reads the EXISTS grammar from `args[start..]`, exactly as
    /// [`spec_one_key`] says.
    pub fn try_from(args: &Vec<RESPType>, start: usize) -> (r: Result<Exists, CommandErr>)
        requires
            start <= args.len(),
        ensures
            ({
                let argv = model_seq(args@).skip(start as int);
                match r {
                    Ok(c) => spec_one_key(argv) == Ok::<Seq<u8>, CommandErrV>(c.model()),
                    Err(e) => spec_one_key(argv) == Err::<Seq<u8>, CommandErrV>(e.model()),
                }
            }),
    {
        proof {
            lemma_model_seq(args@);
        }
        let n = args.len() - start;
        if n != 1 {
            return Err(CommandErr::LackArgs(1, n));
        }
        match args[start].get_string() {
            Ok(t) => Ok(Exists(clone_bytes(t))),
            Err(e) => Err(CommandErr::Convert(e)),
        }
    }
}

/// Pastes already-read keys in front of the outcome of reading the rest.
spec fn texts_with_prefix(
    prefix: Seq<Seq<u8>>,
    rest: Result<Seq<Seq<u8>>, ConvertErr>,
) -> Result<Seq<Seq<u8>>, ConvertErr> {
    match rest {
        Ok(ts) => Ok(prefix + ts),
        Err(e) => Err(e),
    }
}

impl Del {
    /// Reads the DEL grammar from `args[start..]`, exactly as [`spec_del`]
    /// says.
    pub fn try_from(args: &Vec<RESPType>, start: usize) -> (r: Result<Del, CommandErr>)
        requires
            start <= args.len(),
        ensures
            ({
                let argv = model_seq(args@).skip(start as int);
                match r {
                    Ok(c) => spec_del(argv) == Ok::<Seq<Seq<u8>>, CommandErrV>(c.model()),
                    Err(e) => spec_del(argv) == Err::<Seq<Seq<u8>>, CommandErrV>(e.model()),
                }
            }),
    {
        let ghost argv = model_seq(args@).skip(start as int);
        proof {
            lemma_model_seq(args@);
        }
        let n = args.len() - start;
        if n == 0 {
            return Err(CommandErr::LackArgs(1, 0));
        }
        let mut keys: Vec<Vec<u8>> = Vec::new();
        let mut idx = start;
        proof {
            assert(argv =~= model_seq(args@).skip(idx as int));
            match spec_texts(model_seq(args@).skip(idx as int)) {
                Ok(ts) => {
                    assert(keys_model(keys@) + ts =~= ts);
                },
                Err(e) => {},
            }
        }
        #[verifier::loop_isolation(false)]
        while idx < args.len()
            invariant
                start <= idx <= args.len(),
                keys_model(keys@).len() == idx - start,
                spec_texts(argv) == texts_with_prefix(
                    keys_model(keys@),
                    spec_texts(model_seq(args@).skip(idx as int)),
                ),
            decreases args.len() - idx,
        {
            proof {
                assert(model_seq(args@).skip(idx as int)[0] == args@[idx as int].model());
            }
            let t = match args[idx].get_string() {
                Ok(t) => t,
                Err(e) => {
                    return Err(CommandErr::Convert(e));
                },
            };
            let k = clone_bytes(t);
            proof {
                assert(model_seq(args@).skip(idx as int).skip(1) =~= model_seq(args@).skip(
                    idx + 1 as int,
                ));
                assert(keys_model(keys@.push(k)) =~= keys_model(keys@) + seq![k@]);
                match spec_texts(model_seq(args@).skip(idx + 1 as int)) {
                    Ok(ts) => {
                        assert(keys_model(keys@) + (seq![t@] + ts) =~= (keys_model(keys@)
                            + seq![k@]) + ts);
                    },
                    Err(e) => {},
                }
            }
            keys.push(k);
            idx = idx + 1;
        }
        proof {
            assert(spec_texts(model_seq(args@).skip(idx as int)) == Ok::<
                Seq<Seq<u8>>,
                ConvertErr,
            >(Seq::empty()));
            assert(keys_model(keys@) + Seq::<Seq<u8>>::empty() =~= keys_model(keys@));
        }
        Ok(Del(keys))
    }
}

impl RedisCommands {
    /// Interprets a decoded wire value as a request, exactly as
    /// [`spec_interpret`] says.
    pub fn try_from(v: &RESPType) -> (r: Result<RedisCommands, CommandErr>)
        ensures
            match r {
                Ok(c) => spec_interpret(v.model()) == Ok::<RedisCommandsV, CommandErrV>(
                    c.model(),
                ),
                Err(e) => spec_interpret(v.model()) == Err::<RedisCommandsV, CommandErrV>(
                    e.model(),
                ),
            },
    {
        let arr = match v.to_arr() {
            Ok(a) => a,
            Err(e) => {
                return Err(CommandErr::Convert(e));
            },
        };
        proof {
            lemma_model_seq(arr@);
        }
        let name = match arr[0].get_string() {
            Ok(t) => t,
            Err(e) => {
                return Err(CommandErr::Convert(e));
            },
        };
        let w_set = vec![115u8, 101u8, 116u8];
        let w_get = vec![103u8, 101u8, 116u8];
        let w_getset = vec![103u8, 101u8, 116u8, 115u8, 101u8, 116u8];
        let w_strlen = vec![115u8, 116u8, 114u8, 108u8, 101u8, 110u8];
        let w_exists = vec![101u8, 120u8, 105u8, 115u8, 116u8, 115u8];
        let w_del = vec![100u8, 101u8, 108u8];
        proof {
            assert(w_set@ =~= kw_set());
            assert(w_get@ =~= kw_get());
            assert(w_getset@ =~= kw_getset());
            assert(w_strlen@ =~= kw_strlen());
            assert(w_exists@ =~= kw_exists());
            assert(w_del@ =~= kw_del());
        }
        if bytes_eq(name, &w_set) {
            match SetCmd::try_from(arr, 1) {
                Ok(c) => Ok(RedisCommands::SetCmd(c)),
                Err(e) => Err(e),
            }
        } else if bytes_eq(name, &w_get) {
            match Get::try_from(arr, 1) {
                Ok(c) => Ok(RedisCommands::Get(c)),
                Err(e) => Err(e),
            }
        } else if bytes_eq(name, &w_getset) {
            match GetSet::try_from(arr, 1) {
                Ok(c) => Ok(RedisCommands::GetSet(c)),
                Err(e) => Err(e),
            }
        } else if bytes_eq(name, &w_strlen) {
            match StrLen::try_from(arr, 1) {
                Ok(c) => Ok(RedisCommands::StrLen(c)),
                Err(e) => Err(e),
            }
        } else if bytes_eq(name, &w_exists) {
            match Exists::try_from(arr, 1) {
                Ok(c) => Ok(RedisCommands::Exists(c)),
                Err(e) => Err(e),
            }
        } else if bytes_eq(name, &w_del) {
            match Del::try_from(arr, 1) {
                Ok(c) => Ok(RedisCommands::Del(c)),
                Err(e) => Err(e),
            }
        } else {
            Err(CommandErr::UnknownCommand(clone_bytes(name)))
        }
    }
}

} // verus!
