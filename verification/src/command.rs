//! The command model and registry: hierarchical commands with typed
//! arguments, registration with required-first argument reordering,
//! exact-match path resolution, prefix-based suggestions with argument
//! hints, and execution with positional/named/default argument binding.

use vstd::prelude::*;

use std::rc::Rc;

use crate::text::{
    chars_eq_str, chars_of, chars_start_with, colon_key, colon_pos, colon_value, find_first_colon,
    has_colon, join_range, join_tokens, lemma_colon_pos, push_dec_i32, push_str_chars,
    string_from_chars, str_eq, str_starts_with_chars, subvec, tokenize, tokens_of, dec_int,
};

verus! {

/// What a command does when executed.  The prompt engine treats handlers as
/// opaque capabilities: it only promises to call them with the bound
/// name-to-value pairs and to surface the returned string.
pub trait CommandHandler {
    /// Runs the command on the bound name-to-value argument pairs.
    fn run(&self, args: Vec<(String, String)>) -> String;
}

/// A shared handle to a handler.  Registration stores a command tree in
/// several places, so a handler needs more than one owner.
pub type HandlerRef = Rc<Box<dyn CommandHandler>>;

/// Relies on Rc::clone: another handle to the same handler allocation.
#[verifier::external_body]
fn share_handler(h: &HandlerRef) -> (r: HandlerRef)
    ensures
        r == *h,
{
    h.clone()
}

/// One argument of a command: a name, a type tag such as `int` or `string`,
/// an optional numeric range for `int` arguments, whether the argument is
/// optional, and an optional default literal.
pub struct CommandArg {
    pub name: String,
    pub arg_type: String,
    pub range: Option<(i32, i32)>,
    pub optional: bool,
    pub default: Option<String>,
}

/// A command: a name, ordered argument specifications, nested subcommands,
/// and an optional handler.
pub struct Command {
    pub name: String,
    pub args: Vec<CommandArg>,
    pub subcommands: Vec<Command>,
    pub handler: Option<HandlerRef>,
}

/// An ordered forest of top-level commands.
pub struct CommandRegistry {
    pub commands: Vec<Command>,
}

/// Mathematical model of an argument specification.
#[verifier::ext_equal]
pub ghost struct ArgModel {
    pub name: Seq<char>,
    pub ty: Seq<char>,
    pub range: Option<(int, int)>,
    pub optional: bool,
    pub default: Option<Seq<char>>,
}

/// Mathematical model of a command tree node.
#[verifier::ext_equal]
pub ghost struct CommandModel {
    pub name: Seq<char>,
    pub args: Seq<ArgModel>,
    pub subs: Seq<CommandModel>,
    pub has_handler: bool,
}

impl CommandArg {
    pub open spec fn view(&self) -> ArgModel {
        ArgModel {
            name: self.name@,
            ty: self.arg_type@,
            range: match self.range {
                Some((lo, hi)) => Some((lo as int, hi as int)),
                None => None,
            },
            optional: self.optional,
            default: match self.default {
                Some(d) => Some(d@),
                None => None,
            },
        }
    }
}

/// The models of a sequence of argument specifications.
pub open spec fn args_view(s: Seq<CommandArg>) -> Seq<ArgModel> {
    Seq::new(s.len(), |i: int| s[i]@)
}

impl Command {
    pub open spec fn view(&self) -> CommandModel
        decreases *self,
    {
        CommandModel {
            name: self.name@,
            args: args_view(self.args@),
            subs: cmds_view(self.subcommands@),
            has_handler: self.handler is Some,
        }
    }
}

/// The models of a sequence of commands.
pub open spec fn cmds_view(cs: Seq<Command>) -> Seq<CommandModel>
    decreases cs, cs.len(),
{
    if cs.len() == 0 {
        Seq::empty()
    } else {
        seq![cs[0]@] + cmds_view(cs.drop_first())
    }
}

pub proof fn lemma_cmds_view(cs: Seq<Command>)
    ensures
        cmds_view(cs).len() == cs.len(),
        forall|i: int| 0 <= i < cs.len() ==> #[trigger] cmds_view(cs)[i] == cs[i]@,
    decreases cs.len(),
{
    if cs.len() > 0 {
        lemma_cmds_view(cs.drop_first());
        assert forall|i: int| 0 <= i < cs.len() implies #[trigger] cmds_view(cs)[i] == cs[i]@ by {
            if i > 0 {
                assert(cmds_view(cs)[i] == cmds_view(cs.drop_first())[i - 1]);
                assert(cs.drop_first()[i - 1] == cs[i]);
            }
        }
    }
}

impl CommandRegistry {
    pub open spec fn view(&self) -> Seq<CommandModel> {
        cmds_view(self.commands@)
    }
}

// ---------------------------------------------------------------------------
// Registration: required arguments first, subcommands flattened
// ---------------------------------------------------------------------------

/// The required arguments, in their original relative order.
pub open spec fn required_of(args: Seq<ArgModel>) -> Seq<ArgModel>
    decreases args.len(),
{
    if args.len() == 0 {
        Seq::empty()
    } else if !args[0].optional {
        seq![args[0]] + required_of(args.drop_first())
    } else {
        required_of(args.drop_first())
    }
}

/// The optional arguments, in their original relative order.
pub open spec fn optional_of(args: Seq<ArgModel>) -> Seq<ArgModel>
    decreases args.len(),
{
    if args.len() == 0 {
        Seq::empty()
    } else if args[0].optional {
        seq![args[0]] + optional_of(args.drop_first())
    } else {
        optional_of(args.drop_first())
    }
}

/// The stored argument order: every required argument first, then every
/// optional one, each partition keeping its original relative order.
pub open spec fn reorder_args(args: Seq<ArgModel>) -> Seq<ArgModel> {
    required_of(args) + optional_of(args)
}

/// A command as registration stores it at top level: its own arguments
/// reordered, its subcommand list kept as declared.
pub open spec fn registered_view(c: CommandModel) -> CommandModel {
    CommandModel { args: reorder_args(c.args), ..c }
}

/// The top-level entries that registering one command adds: the command
/// itself, then, recursively, every declared subcommand.
pub open spec fn reg_entries(c: CommandModel) -> Seq<CommandModel>
    decreases c,
{
    seq![registered_view(c)] + reg_entries_list(c.subs)
}

pub open spec fn reg_entries_list(cs: Seq<CommandModel>) -> Seq<CommandModel>
    decreases cs, cs.len(),
{
    if cs.len() == 0 {
        Seq::empty()
    } else {
        reg_entries(cs[0]) + reg_entries_list(cs.drop_first())
    }
}

pub proof fn lemma_reg_entries_list_push(cs: Seq<CommandModel>, c: CommandModel)
    ensures
        reg_entries_list(cs.push(c)) == reg_entries_list(cs) + reg_entries(c),
    decreases cs.len(),
{
    let p = cs.push(c);
    if cs.len() == 0 {
        assert(p[0] == c);
        assert(p.drop_first() =~= Seq::<CommandModel>::empty());
        assert(reg_entries_list(Seq::<CommandModel>::empty()) == Seq::<CommandModel>::empty());
        assert(reg_entries_list(p) == reg_entries(c) + reg_entries_list(p.drop_first()));
        assert(reg_entries_list(cs.push(c)) =~= reg_entries_list(cs) + reg_entries(c));
    } else {
        lemma_reg_entries_list_push(cs.drop_first(), c);
        assert(p.drop_first() =~= cs.drop_first().push(c));
        assert(p[0] == cs[0]);
        assert(reg_entries_list(p) == reg_entries(cs[0]) + reg_entries_list(p.drop_first()));
        assert(reg_entries_list(cs) == reg_entries(cs[0]) + reg_entries_list(cs.drop_first()));
        assert(reg_entries_list(cs.push(c)) =~= reg_entries_list(cs) + reg_entries(c));
    }
}

// ---------------------------------------------------------------------------
// Path resolution
// ---------------------------------------------------------------------------

/// The first command in the list with exactly the given name.
pub open spec fn find_named(cmds: Seq<CommandModel>, name: Seq<char>) -> Option<CommandModel>
    decreases cmds.len(),
{
    if cmds.len() == 0 {
        None
    } else if cmds[0].name == name {
        Some(cmds[0])
    } else {
        find_named(cmds.drop_first(), name)
    }
}

/// Descends from a command through the remaining path tokens, each by exact
/// subcommand name match.
pub open spec fn resolve_from(c: CommandModel, rest: Seq<Seq<char>>) -> Option<CommandModel>
    decreases rest.len(),
{
    if rest.len() == 0 {
        Some(c)
    } else {
        match find_named(c.subs, rest[0]) {
            None => None,
            Some(d) => resolve_from(d, rest.drop_first()),
        }
    }
}

/// Resolves a whole command path: the first token against the top-level
/// commands, every later token against the current subcommand list.  An
/// empty path never resolves.
pub open spec fn resolve_path(cmds: Seq<CommandModel>, path: Seq<Seq<char>>) -> Option<
    CommandModel,
> {
    if path.len() == 0 {
        None
    } else {
        match find_named(cmds, path[0]) {
            None => None,
            Some(c) => resolve_from(c, path.drop_first()),
        }
    }
}

/// Greedy longest-prefix resolution: keeps descending while tokens keep
/// matching subcommands, and remembers the deepest command reached together
/// with how many tokens it consumed.
pub open spec fn deepest_from(c: CommandModel, k: int, rest: Seq<Seq<char>>) -> (CommandModel, int)
    decreases rest.len(),
{
    if rest.len() == 0 {
        (c, k)
    } else {
        match find_named(c.subs, rest[0]) {
            None => (c, k),
            Some(d) => deepest_from(d, k + 1, rest.drop_first()),
        }
    }
}

/// The longest token prefix of the input that resolves to a command, with
/// the number of tokens it consumed; `None` when not even the first token
/// names a top-level command.
pub open spec fn deepest_match(cmds: Seq<CommandModel>, toks: Seq<Seq<char>>) -> Option<
    (CommandModel, int),
> {
    if toks.len() == 0 {
        None
    } else {
        match find_named(cmds, toks[0]) {
            None => None,
            Some(c) => Some(deepest_from(c, 1, toks.drop_first())),
        }
    }
}

// ---------------------------------------------------------------------------
// Executable registry
// ---------------------------------------------------------------------------

fn clone_string_opt(o: &Option<String>) -> (r: Option<String>)
    ensures
        r == *o,
{
    match o {
        Some(s) => Some(s.clone()),
        None => None,
    }
}

fn clone_arg(a: &CommandArg) -> (r: CommandArg)
    ensures
        r@ == a@,
        r.optional == a.optional,
{
    CommandArg {
        name: a.name.clone(),
        arg_type: a.arg_type.clone(),
        range: a.range,
        optional: a.optional,
        default: clone_string_opt(&a.default),
    }
}

fn clone_args(args: &Vec<CommandArg>) -> (r: Vec<CommandArg>)
    ensures
        args_view(r@) == args_view(args@),
{
    let mut r: Vec<CommandArg> = Vec::new();
    let mut i: usize = 0;
    while i < args.len()
        invariant
            i <= args@.len(),
            r@.len() == i,
            forall|j: int| 0 <= j < i ==> #[trigger] r@[j]@ == args@[j]@,
        decreases args@.len() - i,
    {
        r.push(clone_arg(&args[i]));
        i = i + 1;
    }
    proof {
        assert(args_view(r@) =~= args_view(args@));
    }
    r
}

/// A copy of a command tree; handlers are shared through
/// [`CommandHandler::share`].
pub fn clone_command(c: &Command) -> (r: Command)
    ensures
        r@ == c@,
    decreases *c,
{
    let handler: Option<HandlerRef> = match &c.handler {
        Some(h) => Some(share_handler(h)),
        None => None,
    };
    let mut subs: Vec<Command> = Vec::new();
    let mut i: usize = 0;
    while i < c.subcommands.len()
        invariant
            i <= c.subcommands@.len(),
            subs@.len() == i,
            forall|j: int| 0 <= j < i ==> #[trigger] subs@[j]@ == c.subcommands@[j]@,
        decreases c.subcommands@.len() - i,
    {
        let sc = clone_command(&c.subcommands[i]);
        subs.push(sc);
        i = i + 1;
    }
    proof {
        lemma_cmds_view(subs@);
        lemma_cmds_view(c.subcommands@);
        assert(cmds_view(subs@) =~= cmds_view(c.subcommands@));
    }
    let r = Command {
        name: c.name.clone(),
        args: clone_args(&c.args),
        subcommands: subs,
        handler,
    };
    proof {
        assert(r@ =~= c@);
    }
    r
}

impl CommandRegistry {
    /// An empty registry.
    pub fn new() -> (r: Self)
        ensures
            r@ == Seq::<CommandModel>::empty(),
    {
        let r = CommandRegistry { commands: Vec::new() };
        proof {
            assert(r@ =~= Seq::<CommandModel>::empty());
        }
        r
    }

    /// Registers a command as a new top-level entry, storing its required
    /// arguments before its optional ones, and recursively registers every
    /// declared subcommand as a further top-level entry.  The stored
    /// subcommand list of each entry is kept as declared.
    pub fn register_command(&mut self, command: Command)
        ensures
            final(self)@ == old(self)@ + reg_entries(command@),
    {
        self.register_ref(&command);
    }

    fn register_ref(&mut self, c: &Command)
        ensures
            final(self)@ == old(self)@ + reg_entries(c@),
        decreases *c,
    {
        let ghost self0 = old(self)@;
        let ghost argsv = args_view(c.args@);

        // Partition the arguments: required first, optional after, each in
        // their original relative order.
        let mut required: Vec<CommandArg> = Vec::new();
        let mut optional: Vec<CommandArg> = Vec::new();
        let mut i: usize = 0;
        proof {
            assert(args_view(required@) =~= required_of(argsv.take(0)));
            assert(args_view(optional@) =~= optional_of(argsv.take(0)));
        }
        while i < c.args.len()
            invariant
                i <= c.args@.len(),
                argsv == args_view(c.args@),
                args_view(required@) == required_of(argsv.take(i as int)),
                args_view(optional@) == optional_of(argsv.take(i as int)),
            decreases c.args@.len() - i,
        {
            let ghost req_before = args_view(required@);
            let ghost opt_before = args_view(optional@);
            let a = clone_arg(&c.args[i]);
            proof {
                assert(a@ == argsv[i as int]);
                lemma_pick_step(argsv, i as int);
            }
            if a.optional {
                optional.push(a);
                proof {
                    assert(args_view(optional@) =~= opt_before.push(argsv[i as int]));
                }
            } else {
                required.push(a);
                proof {
                    assert(args_view(required@) =~= req_before.push(argsv[i as int]));
                }
            }
            i = i + 1;
        }
        proof {
            assert(argsv.take(c.args@.len() as int) =~= argsv);
        }
        let mut new_args = required;
        new_args.append(&mut optional);
        proof {
            assert(args_view(new_args@) =~= reorder_args(argsv));
        }

        // Store the command itself, with a shared copy of its subcommand
        // list, then register every subcommand in declaration order.
        let subs_copy = clone_commands(&c.subcommands);
        let handler: Option<HandlerRef> = match &c.handler {
            Some(h) => Some(share_handler(h)),
            None => None,
        };
        let new_command = Command {
            name: c.name.clone(),
            args: new_args,
            subcommands: subs_copy,
            handler,
        };
        proof {
            assert(new_command@ =~= registered_view(c@));
        }
        let ghost before_push = self.commands@;
        self.commands.push(new_command);
        proof {
            lemma_cmds_view_push(before_push, new_command);
            assert(self@ =~= self0 + seq![registered_view(c@)]);
        }

        let ghost subsv = cmds_view(c.subcommands@);
        let mut j: usize = 0;
        proof {
            lemma_cmds_view(c.subcommands@);
            assert(subsv.take(0) =~= Seq::<CommandModel>::empty());
            assert(self@ =~= self0 + seq![registered_view(c@)] + reg_entries_list(subsv.take(0)));
        }
        while j < c.subcommands.len()
            invariant
                j <= c.subcommands@.len(),
                subsv == cmds_view(c.subcommands@),
                subsv.len() == c.subcommands@.len(),
                forall|t: int|
                    0 <= t < c.subcommands@.len() ==> #[trigger] subsv[t] == c.subcommands@[t]@,
                self@ == self0 + seq![registered_view(c@)] + reg_entries_list(
                    subsv.take(j as int),
                ),
            decreases c.subcommands@.len() - j,
        {
            self.register_ref(&c.subcommands[j]);
            proof {
                assert(subsv.take(j + 1 as int) =~= subsv.take(j as int).push(
                    c.subcommands@[j as int]@,
                ));
                lemma_reg_entries_list_push(subsv.take(j as int), c.subcommands@[j as int]@);
                assert(self@ =~= self0 + seq![registered_view(c@)] + reg_entries_list(
                    subsv.take(j + 1 as int),
                ));
            }
            j = j + 1;
        }
        proof {
            assert(subsv.take(c.subcommands@.len() as int) =~= subsv);
            assert(c@.subs == subsv);
            assert(self@ =~= self0 + reg_entries(c@));
        }
    }
}

/// A copy of a command list; handlers are shared.
fn clone_commands(cs: &Vec<Command>) -> (r: Vec<Command>)
    ensures
        cmds_view(r@) == cmds_view(cs@),
{
    let mut r: Vec<Command> = Vec::new();
    let mut i: usize = 0;
    while i < cs.len()
        invariant
            i <= cs@.len(),
            r@.len() == i,
            forall|j: int| 0 <= j < i ==> #[trigger] r@[j]@ == cs@[j]@,
        decreases cs@.len() - i,
    {
        let c = clone_command(&cs[i]);
        r.push(c);
        i = i + 1;
    }
    proof {
        lemma_cmds_view(r@);
        lemma_cmds_view(cs@);
        assert(cmds_view(r@) =~= cmds_view(cs@));
    }
    r
}

proof fn lemma_cmds_view_push(cs: Seq<Command>, c: Command)
    ensures
        cmds_view(cs.push(c)) == cmds_view(cs) + seq![c@],
    decreases cs.len(),
{
    let p = cs.push(c);
    if cs.len() == 0 {
        assert(p[0] == c);
        assert(p.drop_first() =~= Seq::<Command>::empty());
        assert(cmds_view(Seq::<Command>::empty()) == Seq::<CommandModel>::empty());
        assert(cmds_view(p) == seq![c@] + cmds_view(p.drop_first()));
        assert(cmds_view(cs.push(c)) =~= cmds_view(cs) + seq![c@]);
    } else {
        lemma_cmds_view_push(cs.drop_first(), c);
        assert(p.drop_first() =~= cs.drop_first().push(c));
        assert(p[0] == cs[0]);
        assert(cmds_view(p) == seq![cs[0]@] + cmds_view(p.drop_first()));
        assert(cmds_view(cs) == seq![cs[0]@] + cmds_view(cs.drop_first()));
        assert(cmds_view(cs.push(c)) =~= cmds_view(cs) + seq![c@]);
    }
}

/// One step of the required/optional partition.
proof fn lemma_pick_step(args: Seq<ArgModel>, i: int)
    requires
        0 <= i < args.len(),
    ensures
        required_of(args.take(i + 1)) == if !args[i].optional {
            required_of(args.take(i)).push(args[i])
        } else {
            required_of(args.take(i))
        },
        optional_of(args.take(i + 1)) == if args[i].optional {
            optional_of(args.take(i)).push(args[i])
        } else {
            optional_of(args.take(i))
        },
{
    lemma_partition_push(args.take(i), args[i]);
    assert(args.take(i + 1) =~= args.take(i).push(args[i]));
}

proof fn lemma_partition_push(s: Seq<ArgModel>, a: ArgModel)
    ensures
        required_of(s.push(a)) == if !a.optional {
            required_of(s).push(a)
        } else {
            required_of(s)
        },
        optional_of(s.push(a)) == if a.optional {
            optional_of(s).push(a)
        } else {
            optional_of(s)
        },
    decreases s.len(),
{
    let p = s.push(a);
    if s.len() == 0 {
        assert(p[0] == a);
        assert(p.drop_first() =~= Seq::<ArgModel>::empty());
        assert(required_of(Seq::<ArgModel>::empty()) == Seq::<ArgModel>::empty());
        assert(optional_of(Seq::<ArgModel>::empty()) == Seq::<ArgModel>::empty());
        if !a.optional {
            assert(required_of(p) == seq![a] + required_of(p.drop_first()));
            assert(optional_of(p) == optional_of(p.drop_first()));
            assert(required_of(s.push(a)) =~= required_of(s).push(a));
            assert(optional_of(s.push(a)) =~= optional_of(s));
        } else {
            assert(required_of(p) == required_of(p.drop_first()));
            assert(optional_of(p) == seq![a] + optional_of(p.drop_first()));
            assert(required_of(s.push(a)) =~= required_of(s));
            assert(optional_of(s.push(a)) =~= optional_of(s).push(a));
        }
    } else {
        lemma_partition_push(s.drop_first(), a);
        assert(p.drop_first() =~= s.drop_first().push(a));
        assert(p[0] == s[0]);
        if !s[0].optional {
            assert(required_of(p) == seq![s[0]] + required_of(p.drop_first()));
            assert(optional_of(p) == optional_of(p.drop_first()));
            assert(required_of(s) == seq![s[0]] + required_of(s.drop_first()));
            assert(optional_of(s) == optional_of(s.drop_first()));
        } else {
            assert(required_of(p) == required_of(p.drop_first()));
            assert(optional_of(p) == seq![s[0]] + optional_of(p.drop_first()));
            assert(required_of(s) == required_of(s.drop_first()));
            assert(optional_of(s) == seq![s[0]] + optional_of(s.drop_first()));
        }
        if !a.optional {
            assert(required_of(s.push(a)) =~= required_of(s).push(a));
            assert(optional_of(s.push(a)) =~= optional_of(s));
        } else {
            assert(required_of(s.push(a)) =~= required_of(s));
            assert(optional_of(s.push(a)) =~= optional_of(s).push(a));
        }
    }
}


// ---------------------------------------------------------------------------
// Argument binding
// ---------------------------------------------------------------------------

/// The positional tokens of an argument tail: those without a `:`.
pub open spec fn positional_of(tail: Seq<Seq<char>>) -> Seq<Seq<char>>
    decreases tail.len(),
{
    if tail.len() == 0 {
        Seq::empty()
    } else if !has_colon(tail[0]) {
        seq![tail[0]] + positional_of(tail.drop_first())
    } else {
        positional_of(tail.drop_first())
    }
}

/// The value of the last `name:value` token with the given name, if any:
/// a later named token overrides an earlier one.
pub open spec fn named_value(tail: Seq<Seq<char>>, name: Seq<char>) -> Option<Seq<char>>
    decreases tail.len(),
{
    if tail.len() == 0 {
        None
    } else if has_colon(tail.last()) && colon_key(tail.last()) == name {
        Some(colon_value(tail.last()))
    } else {
        named_value(tail.drop_last(), name)
    }
}

/// The value bound to the argument at position `i` of the stored argument
/// order: the `i`-th positional token if one exists, else the named value
/// for its name, else its declared default.
pub open spec fn arg_binding(a: ArgModel, tail: Seq<Seq<char>>, i: int) -> Option<Seq<char>> {
    if 0 <= i < positional_of(tail).len() {
        Some(positional_of(tail)[i])
    } else if named_value(tail, a.name) is Some {
        named_value(tail, a.name)
    } else if a.default is Some {
        a.default
    } else {
        None
    }
}

/// Binds the arguments from position `i` on: each argument takes its
/// binding when one exists, an unbound optional argument is skipped, and
/// the first unbound required argument fails the whole binding.
pub open spec fn bind_from(args: Seq<ArgModel>, tail: Seq<Seq<char>>, i: int) -> Result<
    Seq<(Seq<char>, Seq<char>)>,
    Seq<char>,
>
    decreases args.len() - i,
{
    if i < 0 || i >= args.len() {
        Ok(Seq::empty())
    } else {
        match arg_binding(args[i], tail, i) {
            Some(v) => match bind_from(args, tail, i + 1) {
                Ok(restb) => Ok(seq![(args[i].name, v)] + restb),
                Err(n) => Err(n),
            },
            None => if !args[i].optional {
                Err(args[i].name)
            } else {
                bind_from(args, tail, i + 1)
            },
        }
    }
}

/// The result text for an unbound required argument.
pub open spec fn missing_msg(name: Seq<char>) -> Seq<char> {
    "Missing required argument: "@ + name
}

/// What execution of an input line may return: nothing when no command
/// path matched, the missing-required-argument message when binding fails,
/// some handler output when the bound command has a handler, and nothing
/// when it has none.
pub open spec fn execute_outcome_ok(
    cmds: Seq<CommandModel>,
    input: Seq<char>,
    r: Option<String>,
) -> bool {
    let toks = tokens_of(input);
    match deepest_match(cmds, toks) {
        None => r is None,
        Some((c, k)) => match bind_from(c.args, toks.skip(k), 0) {
            Err(n) => (r matches Some(m) && m@ == missing_msg(n)),
            Ok(entries) => if c.has_handler {
                r is Some
            } else {
                r is None
            },
        },
    }
}

/// The name-to-value views of a bound argument list.
pub open spec fn pairs_view(v: Seq<(String, String)>) -> Seq<(Seq<char>, Seq<char>)> {
    Seq::new(v.len(), |i: int| (v[i].0@, v[i].1@))
}

spec fn bind_compose(
    pre: Seq<(Seq<char>, Seq<char>)>,
    r: Result<Seq<(Seq<char>, Seq<char>)>, Seq<char>>,
) -> Result<Seq<(Seq<char>, Seq<char>)>, Seq<char>> {
    match r {
        Ok(e) => Ok(pre + e),
        Err(n) => Err(n),
    }
}

// ---------------------------------------------------------------------------
// Executable resolution
// ---------------------------------------------------------------------------

/// The first command in the list whose name equals the given characters.
fn find_in<'a>(cmds: &'a Vec<Command>, name_chars: &Vec<char>) -> (r: Option<&'a Command>)
    ensures
        match r {
            Some(c) => find_named(cmds_view(cmds@), name_chars@) == Some(c@),
            None => find_named(cmds_view(cmds@), name_chars@) is None,
        },
{
    let ghost cv = cmds_view(cmds@);
    proof {
        lemma_cmds_view(cmds@);
        assert(cv.skip(0) =~= cv);
    }
    let mut i: usize = 0;
    while i < cmds.len()
        invariant
            i <= cmds@.len(),
            cv == cmds_view(cmds@),
            cv.len() == cmds@.len(),
            forall|t: int| 0 <= t < cmds@.len() ==> #[trigger] cv[t] == cmds@[t]@,
            find_named(cv, name_chars@) == find_named(cv.skip(i as int), name_chars@),
        decreases cmds@.len() - i,
    {
        let same = chars_eq_str(name_chars, cmds[i].name.as_str());
        proof {
            assert(cv.skip(i as int)[0] == cmds@[i as int]@);
        }
        if same {
            return Some(&cmds[i]);
        }
        proof {
            assert(cv.skip(i as int).drop_first() =~= cv.skip(i + 1 as int));
        }
        i = i + 1;
    }
    proof {
        assert(cv.skip(i as int) =~= Seq::<CommandModel>::empty());
    }
    None
}

impl CommandRegistry {
    /// Resolves a whitespace-separated command path by exact name matches:
    /// the first token against the top-level commands, each later token
    /// against the current command's subcommands.  A path without any
    /// token is a programmer error and is excluded.
    pub fn find_command(&self, name: &str) -> (r: Option<&Command>)
        requires
            tokens_of(name@).len() > 0,
        ensures
            match r {
                Some(c) => resolve_path(self@, tokens_of(name@)) == Some(c@),
                None => resolve_path(self@, tokens_of(name@)) is None,
            },
    {
        let chars = chars_of(name);
        let toks = tokenize(&chars);
        let ghost tv = tokens_of(name@);
        proof {
            assert(toks.deep_view()[0] =~= toks@[0]@);
        }
        let first = match find_in(&self.commands, &toks[0]) {
            Some(c) => c,
            None => {
                proof {
                    assert(toks.deep_view()[0] == tv[0]);
                    assert(find_named(self@, tv[0]) is None);
                    assert(resolve_path(self@, tv) is None);
                }
                return None;
            },
        };
        let mut cur: &Command = first;
        let mut i: usize = 1;
        proof {
            assert(tv.drop_first() =~= tv.skip(1));
        }
        while i < toks.len()
            invariant
                1 <= i <= toks@.len(),
                tv == tokens_of(name@),
                toks.deep_view() == tv,
                toks@.len() == tv.len(),
                resolve_path(self@, tv) == resolve_from(cur@, tv.skip(i as int)),
            decreases toks@.len() - i,
        {
            let ghost rest = tv.skip(i as int);
            proof {
                assert(toks.deep_view()[i as int] =~= toks@[i as int]@);
                assert(rest[0] == tv[i as int]);
            }
            let nxt = match find_in(&cur.subcommands, &toks[i]) {
                Some(c) => c,
                None => {
                    proof {
                        assert(find_named(cur@.subs, rest[0]) is None);
                        assert(resolve_path(self@, tokens_of(name@)) is None);
                    }
                    return None;
                },
            };
            proof {
                assert(rest.drop_first() =~= tv.skip(i + 1 as int));
            }
            cur = nxt;
            i = i + 1;
        }
        proof {
            assert(tv.skip(toks@.len() as int) =~= Seq::<Seq<char>>::empty());
        }
        Some(cur)
    }

    /// Executes an input line: resolves the longest command-path prefix,
    /// binds the remaining tokens to the command's stored arguments, and
    /// runs the handler on success.  Returns the handler's result, a
    /// missing-required-argument message, or nothing when no command
    /// matched or the command has no handler.
    pub fn execute_command(&self, input: &str) -> (r: Option<String>)
        ensures
            execute_outcome_ok(self@, input@, r),
    {
        let chars = chars_of(input);
        let toks = tokenize(&chars);
        let ghost tv = tokens_of(input@);
        if toks.len() == 0 {
            return None;
        }
        proof {
            assert(toks.deep_view()[0] =~= toks@[0]@);
        }
        let first = match find_in(&self.commands, &toks[0]) {
            Some(c) => c,
            None => {
                return None;
            },
        };
        let mut cur: &Command = first;
        let mut k: usize = 1;
        proof {
            assert(tv.drop_first() =~= tv.skip(1));
        }
        while k < toks.len()
            invariant_except_break
                1 <= k <= toks@.len(),
                tv == tokens_of(input@),
                toks.deep_view() == tv,
                toks@.len() == tv.len(),
                deepest_match(self@, tv) == Some(deepest_from(cur@, k as int, tv.skip(k as int))),
            ensures
                tv == tokens_of(input@),
                toks.deep_view() == tv,
                toks@.len() == tv.len(),
                1 <= k <= toks@.len(),
                deepest_match(self@, tv) == Some((cur@, k as int)),
            decreases toks@.len() - k,
        {
            let ghost rest = tv.skip(k as int);
            proof {
                assert(toks.deep_view()[k as int] =~= toks@[k as int]@);
                assert(rest[0] == tv[k as int]);
            }
            match find_in(&cur.subcommands, &toks[k]) {
                Some(c) => {
                    proof {
                        assert(rest.drop_first() =~= tv.skip(k + 1 as int));
                    }
                    cur = c;
                    k = k + 1;
                },
                None => {
                    break ;
                },
            }
        }
        proof {
            if k == toks.len() {
                assert(tv.skip(k as int) =~= Seq::<Seq<char>>::empty());
            }
        }
        let bound = bind_exec(cur, &toks, k);
        match bound {
            Err(name) => {
                let ghost n = name@;
                let mut msg = String::new();
                msg.append("Missing required argument: ");
                msg.append(name.as_str());
                proof {
                    assert(msg@ =~= missing_msg(n));
                }
                Some(msg)
            },
            Ok(entries) => match &cur.handler {
                Some(h) => Some(h.run(entries)),
                None => None,
            },
        }
    }
}

/// Collects the positional tokens of the tail starting at `k`.
fn positional_exec(toks: &Vec<Vec<char>>, k: usize) -> (r: Vec<Vec<char>>)
    requires
        k <= toks@.len(),
    ensures
        r.deep_view() == positional_of(toks.deep_view().skip(k as int)),
{
    let ghost tail = toks.deep_view().skip(k as int);
    let mut r: Vec<Vec<char>> = Vec::new();
    let mut i: usize = k;
    proof {
        assert(tail.skip(0) =~= tail);
        assert(r.deep_view() + positional_of(tail) =~= positional_of(tail));
    }
    while i < toks.len()
        invariant
            k <= i <= toks@.len(),
            tail == toks.deep_view().skip(k as int),
            toks.deep_view().len() == toks@.len(),
            positional_of(tail) == r.deep_view() + positional_of(
                toks.deep_view().skip(i as int),
            ),
        decreases toks@.len() - i,
    {
        let ghost rem = toks.deep_view().skip(i as int);
        let ghost r0 = r.deep_view();
        proof {
            assert(rem[0] == toks.deep_view()[i as int]);
            assert(toks.deep_view()[i as int] =~= toks@[i as int]@);
            assert(rem.drop_first() =~= toks.deep_view().skip(i + 1 as int));
            lemma_colon_pos(toks@[i as int]@);
        }
        let hascol = match find_first_colon(&toks[i]) {
            Some(_) => true,
            None => false,
        };
        if !hascol {
            let t = subvec(&toks[i], 0, toks[i].len());
            proof {
                assert(t@ =~= toks@[i as int]@);
            }
            r.push(t);
            proof {
                assert(t.deep_view() =~= t@);
                assert(r.deep_view() =~~= r0.push(rem[0]));
                assert(r0.push(rem[0]) + positional_of(toks.deep_view().skip(i + 1 as int)) =~= r0
                    + (seq![rem[0]] + positional_of(toks.deep_view().skip(i + 1 as int))));
            }
        }
        i = i + 1;
    }
    proof {
        assert(toks.deep_view().skip(toks@.len() as int) =~= Seq::<Seq<char>>::empty());
        assert(r.deep_view() + Seq::<Seq<char>>::empty() =~= r.deep_view());
    }
    r
}

/// Looks up the value of the last `name:value` token with the given name in
/// the tail starting at `k`.
fn named_value_exec(toks: &Vec<Vec<char>>, k: usize, name: &str) -> (r: Option<Vec<char>>)
    requires
        k <= toks@.len(),
    ensures
        ({
            let tail = toks.deep_view().skip(k as int);
            match r {
                Some(v) => named_value(tail, name@) == Some(v@),
                None => named_value(tail, name@) is None,
            }
        }),
{
    let ghost tail = toks.deep_view().skip(k as int);
    let mut i: usize = toks.len();
    proof {
        assert(tail.take(tail.len() as int) =~= tail);
    }
    while i > k
        invariant
            k <= i <= toks@.len(),
            tail == toks.deep_view().skip(k as int),
            toks.deep_view().len() == toks@.len(),
            tail.len() == toks@.len() - k,
            named_value(tail, name@) == named_value(tail.take(i - k), name@),
        decreases i,
    {
        i = i - 1;
        let ghost pre = tail.take(i + 1 - k);
        proof {
            assert(pre.last() == tail[i - k]);
            assert(tail[i - k] == toks.deep_view()[i as int]);
            assert(toks.deep_view()[i as int] =~= toks@[i as int]@);
            assert(pre.drop_last() =~= tail.take(i - k));
            lemma_colon_pos(toks@[i as int]@);
        }
        match find_first_colon(&toks[i]) {
            Some(p) => {
                proof {
                    assert(p == colon_pos(toks@[i as int]@));
                    assert(p < toks@[i as int]@.len());
                }
                let key = subvec(&toks[i], 0, p);
                proof {
                    assert(key@ =~= colon_key(toks@[i as int]@));
                }
                if chars_eq_str(&key, name) {
                    let tok_len = toks[i].len();
                    proof {
                        assert(p < tok_len);
                    }
                    let v = subvec(&toks[i], p + 1, tok_len);
                    proof {
                        assert(v@ =~= colon_value(toks@[i as int]@));
                    }
                    return Some(v);
                }
            },
            None => {
            },
        }
    }
    proof {
        assert(tail.take(0) =~= Seq::<Seq<char>>::empty());
    }
    None
}

/// Binds every stored argument of a command against the tail tokens.
fn bind_exec(cmd: &Command, toks: &Vec<Vec<char>>, k: usize) -> (r: Result<
    Vec<(String, String)>,
    String,
>)
    requires
        k <= toks@.len(),
    ensures
        ({
            let b = bind_from(cmd@.args, toks.deep_view().skip(k as int), 0);
            match r {
                Ok(v) => (b matches Ok(e) && pairs_view(v@) == e),
                Err(m) => (b matches Err(n) && m@ == n),
            }
        }),
{
    let ghost tail = toks.deep_view().skip(k as int);
    let ghost argsv = cmd@.args;
    let pos = positional_exec(toks, k);
    let mut entries: Vec<(String, String)> = Vec::new();
    let mut i: usize = 0;
    proof {
        assert(pairs_view(entries@) + Seq::<(Seq<char>, Seq<char>)>::empty() =~= pairs_view(
            entries@,
        ));
        assert(bind_compose(pairs_view(entries@), bind_from(argsv, tail, 0)) == bind_from(
            argsv,
            tail,
            0,
        )) by {
            match bind_from(argsv, tail, 0) {
                Ok(e) => {
                    assert(pairs_view(entries@) + e =~= e);
                },
                Err(n) => {},
            }
        }
    }
    while i < cmd.args.len()
        invariant
            i <= cmd.args@.len(),
            k <= toks@.len(),
            toks.deep_view().len() == toks@.len(),
            argsv == cmd@.args,
            argsv == args_view(cmd.args@),
            tail == toks.deep_view().skip(k as int),
            pos.deep_view() == positional_of(tail),
            bind_from(argsv, tail, 0) == bind_compose(
                pairs_view(entries@),
                bind_from(argsv, tail, i as int),
            ),
        decreases cmd.args@.len() - i,
    {
        let a = &cmd.args[i];
        proof {
            assert(a@ == argsv[i as int]);
        }
        let mut val: Option<String> = None;
        if i < pos.len() {
            proof {
                assert(pos.deep_view()[i as int] =~= pos@[i as int]@);
            }
            val = Some(string_from_chars(&pos[i]));
        } else {
            match named_value_exec(toks, k, a.name.as_str()) {
                Some(v) => {
                    val = Some(string_from_chars(&v));
                },
                None => {
                    match &a.default {
                        Some(d) => {
                            val = Some(d.clone());
                        },
                        None => {
                        },
                    }
                },
            }
        }
        proof {
            assert(pos.deep_view().len() == pos@.len());
            match &val {
                Some(v) => {
                    assert(arg_binding(argsv[i as int], tail, i as int) == Some(v@));
                },
                None => {
                    assert(arg_binding(argsv[i as int], tail, i as int) is None);
                },
            }
        }
        match val {
            Some(v) => {
                let ghost pre = pairs_view(entries@);
                entries.push((a.name.clone(), v));
                proof {
                    assert(pairs_view(entries@) =~= pre.push((argsv[i as int].name, v@)));
                    let restb = bind_from(argsv, tail, i + 1 as int);
                    match restb {
                        Ok(e) => {
                            assert(pre.push((argsv[i as int].name, v@)) + e =~= pre + (seq![
                                (argsv[i as int].name, v@),
                            ] + e));
                        },
                        Err(n) => {},
                    }
                }
            },
            None => {
                if !a.optional {
                    proof {
                        assert(bind_from(argsv, tail, i as int) == Err::<
                            Seq<(Seq<char>, Seq<char>)>,
                            Seq<char>,
                        >(argsv[i as int].name));
                    }
                    return Err(a.name.clone());
                }
            },
        }
        i = i + 1;
    }
    proof {
        assert(bind_from(argsv, tail, i as int) == Ok::<
            Seq<(Seq<char>, Seq<char>)>,
            Seq<char>,
        >(Seq::empty()));
        match bind_from(argsv, tail, 0) {
            Ok(e) => {
                assert(pairs_view(entries@) + Seq::<(Seq<char>, Seq<char>)>::empty() =~= pairs_view(
                    entries@,
                ));
            },
            Err(n) => {},
        }
    }
    Ok(entries)
}


// ---------------------------------------------------------------------------
// Suggestions and hints
// ---------------------------------------------------------------------------

/// The names of the commands, in order.
pub open spec fn names_of(cmds: Seq<CommandModel>) -> Seq<Seq<char>>
    decreases cmds.len(),
{
    if cmds.len() == 0 {
        Seq::empty()
    } else {
        seq![cmds[0].name] + names_of(cmds.drop_first())
    }
}

/// The names of the commands that start with the prefix, in order.
pub open spec fn prefix_names(cmds: Seq<CommandModel>, p: Seq<char>) -> Seq<Seq<char>>
    decreases cmds.len(),
{
    if cmds.len() == 0 {
        Seq::empty()
    } else if p.is_prefix_of(cmds[0].name) {
        seq![cmds[0].name] + prefix_names(cmds.drop_first(), p)
    } else {
        prefix_names(cmds.drop_first(), p)
    }
}

/// Full-path suggestion strings for the subcommands whose name starts with
/// the partial last token.
pub open spec fn sub_suggestions(
    subs: Seq<CommandModel>,
    last: Seq<char>,
    joined: Seq<char>,
) -> Seq<Seq<char>>
    decreases subs.len(),
{
    if subs.len() == 0 {
        Seq::empty()
    } else if last.is_prefix_of(subs[0].name) {
        seq![joined + seq![' '] + subs[0].name] + sub_suggestions(subs.drop_first(), last, joined)
    } else {
        sub_suggestions(subs.drop_first(), last, joined)
    }
}

/// The candidates that start with the partial value, in order.
pub open spec fn prefix_filter(cands: Seq<Seq<char>>, partial: Seq<char>) -> Seq<Seq<char>>
    decreases cands.len(),
{
    if cands.len() == 0 {
        Seq::empty()
    } else if partial.is_prefix_of(cands[0]) {
        seq![cands[0]] + prefix_filter(cands.drop_first(), partial)
    } else {
        prefix_filter(cands.drop_first(), partial)
    }
}

/// The fixed literal pool offered for `int`-typed argument values.
pub open spec fn int_pool() -> Seq<Seq<char>> {
    seq!["0"@, "1"@, "10"@, "100"@]
}

/// The inline hint for an argument: `<name:type>`, with ` {min..max}` before
/// the `>` when the argument declares a range, and a trailing `?default`
/// marker when it is optional.
pub open spec fn hint_of(a: ArgModel) -> Seq<char> {
    seq!['<'] + a.name + seq![':'] + a.ty + (match a.range {
        Some((lo, hi)) => seq![' ', '{'] + dec_int(lo) + seq!['.', '.'] + dec_int(hi) + seq!['}'],
        None => Seq::empty(),
    }) + seq!['>'] + (if a.optional {
        seq!['?'] + (match a.default {
            Some(d) => d,
            None => "none"@,
        })
    } else {
        Seq::empty()
    })
}

/// Value suggestions while typing `name:value`: the fixed pool for `int`
/// arguments, the declared default for any other type, each filtered by
/// prefix match against the partial value.
pub open spec fn value_suggestions(a: ArgModel, partial: Seq<char>) -> Seq<Seq<char>> {
    if a.ty == "int"@ {
        prefix_filter(int_pool(), partial)
    } else {
        match a.default {
            Some(d) => prefix_filter(seq![d], partial),
            None => Seq::empty(),
        }
    }
}

/// The suggestion list and hint for a partial input line.
///
/// With two or more tokens, the command path is every token but the last, so
/// by the time it resolves no positional argument can have been supplied
/// before the token being typed: the next expected argument is always the
/// command's first.
pub open spec fn suggest_result(cmds: Seq<CommandModel>, input: Seq<char>) -> (
    Seq<Seq<char>>,
    Seq<char>,
) {
    let toks = tokens_of(input);
    if toks.len() == 0 {
        (names_of(cmds), Seq::<char>::empty())
    } else if toks.len() == 1 {
        (prefix_names(cmds, toks[0]), Seq::<char>::empty())
    } else {
        let path = toks.take(toks.len() - 1);
        let last = toks.last();
        match resolve_path(cmds, path) {
            None => (Seq::<Seq<char>>::empty(), Seq::<char>::empty()),
            Some(c) => {
                let joined = join_tokens(path);
                if has_colon(last) {
                    if c.args.len() > 0 {
                        (value_suggestions(c.args[0], colon_value(last)), hint_of(c.args[0]))
                    } else {
                        (Seq::<Seq<char>>::empty(), Seq::<char>::empty())
                    }
                } else {
                    let subs = sub_suggestions(c.subs, last, joined);
                    if c.args.len() > 0 {
                        (
                            subs + seq![joined + seq![' '] + c.args[0].name + seq![':']],
                            hint_of(c.args[0]),
                        )
                    } else {
                        (subs, Seq::<char>::empty())
                    }
                }
            },
        }
    }
}

/// Appends the hint text for an argument.
fn push_hint(out: &mut Vec<char>, a: &CommandArg)
    ensures
        final(out)@ == old(out)@ + hint_of(a@),
{
    out.push('<');
    push_str_chars(out, a.name.as_str());
    out.push(':');
    push_str_chars(out, a.arg_type.as_str());
    match a.range {
        Some((lo, hi)) => {
            out.push(' ');
            out.push('{');
            push_dec_i32(out, lo);
            out.push('.');
            out.push('.');
            push_dec_i32(out, hi);
            out.push('}');
        },
        None => {},
    }
    out.push('>');
    if a.optional {
        out.push('?');
        match &a.default {
            Some(d) => push_str_chars(out, d.as_str()),
            None => push_str_chars(out, "none"),
        }
    }
    proof {
        assert(out@ =~= old(out)@ + hint_of(a@));
    }
}

/// The names of all the commands, as fresh strings.
fn names_exec(cmds: &Vec<Command>) -> (r: Vec<String>)
    ensures
        r.deep_view() == names_of(cmds_view(cmds@)),
{
    let ghost cv = cmds_view(cmds@);
    proof {
        lemma_cmds_view(cmds@);
        assert(cv.skip(0) =~= cv);
    }
    let mut r: Vec<String> = Vec::new();
    let mut i: usize = 0;
    proof {
        assert(r.deep_view() + names_of(cv) =~= names_of(cv));
    }
    while i < cmds.len()
        invariant
            i <= cmds@.len(),
            cv == cmds_view(cmds@),
            cv.len() == cmds@.len(),
            forall|t: int| 0 <= t < cmds@.len() ==> #[trigger] cv[t] == cmds@[t]@,
            names_of(cv) == r.deep_view() + names_of(cv.skip(i as int)),
        decreases cmds@.len() - i,
    {
        let ghost r0 = r.deep_view();
        let ghost rem = cv.skip(i as int);
        proof {
            assert(rem[0] == cv[i as int]);
            assert(rem.drop_first() =~= cv.skip(i + 1 as int));
        }
        r.push(cmds[i].name.clone());
        proof {
            assert(r.deep_view() =~~= r0.push(cv[i as int].name));
            assert(r0.push(rem[0].name) + names_of(cv.skip(i + 1 as int)) =~= r0 + (seq![
                rem[0].name,
            ] + names_of(cv.skip(i + 1 as int))));
        }
        i = i + 1;
    }
    proof {
        assert(cv.skip(i as int) =~= Seq::<CommandModel>::empty());
        assert(r.deep_view() + names_of(cv.skip(i as int)) =~= r.deep_view());
    }
    r
}

/// The names of the commands that start with the given prefix.
fn prefix_names_exec(cmds: &Vec<Command>, p: &Vec<char>) -> (r: Vec<String>)
    ensures
        r.deep_view() == prefix_names(cmds_view(cmds@), p@),
{
    let ghost cv = cmds_view(cmds@);
    proof {
        lemma_cmds_view(cmds@);
        assert(cv.skip(0) =~= cv);
    }
    let mut r: Vec<String> = Vec::new();
    let mut i: usize = 0;
    proof {
        assert(r.deep_view() + prefix_names(cv, p@) =~= prefix_names(cv, p@));
    }
    while i < cmds.len()
        invariant
            i <= cmds@.len(),
            cv == cmds_view(cmds@),
            cv.len() == cmds@.len(),
            forall|t: int| 0 <= t < cmds@.len() ==> #[trigger] cv[t] == cmds@[t]@,
            prefix_names(cv, p@) == r.deep_view() + prefix_names(cv.skip(i as int), p@),
        decreases cmds@.len() - i,
    {
        let ghost r0 = r.deep_view();
        let ghost rem = cv.skip(i as int);
        proof {
            assert(rem[0] == cv[i as int]);
            assert(rem.drop_first() =~= cv.skip(i + 1 as int));
        }
        if str_starts_with_chars(cmds[i].name.as_str(), p) {
            r.push(cmds[i].name.clone());
            proof {
                assert(r.deep_view() =~~= r0.push(cv[i as int].name));
                assert(r0.push(rem[0].name) + prefix_names(cv.skip(i + 1 as int), p@) =~= r0 + (
                seq![rem[0].name] + prefix_names(cv.skip(i + 1 as int), p@)));
            }
        }
        i = i + 1;
    }
    proof {
        assert(cv.skip(i as int) =~= Seq::<CommandModel>::empty());
        assert(r.deep_view() + prefix_names(cv.skip(i as int), p@) =~= r.deep_view());
    }
    r
}

/// Full-path suggestion strings for the matching subcommands.
fn sub_suggestions_exec(subs: &Vec<Command>, last: &Vec<char>, joined: &Vec<char>) -> (r: Vec<
    String,
>)
    ensures
        r.deep_view() == sub_suggestions(cmds_view(subs@), last@, joined@),
{
    let ghost sv = cmds_view(subs@);
    proof {
        lemma_cmds_view(subs@);
        assert(sv.skip(0) =~= sv);
    }
    let mut r: Vec<String> = Vec::new();
    let mut i: usize = 0;
    proof {
        assert(r.deep_view() + sub_suggestions(sv, last@, joined@) =~= sub_suggestions(
            sv,
            last@,
            joined@,
        ));
    }
    while i < subs.len()
        invariant
            i <= subs@.len(),
            sv == cmds_view(subs@),
            sv.len() == subs@.len(),
            forall|t: int| 0 <= t < subs@.len() ==> #[trigger] sv[t] == subs@[t]@,
            sub_suggestions(sv, last@, joined@) == r.deep_view() + sub_suggestions(
                sv.skip(i as int),
                last@,
                joined@,
            ),
        decreases subs@.len() - i,
    {
        let ghost r0 = r.deep_view();
        let ghost rem = sv.skip(i as int);
        proof {
            assert(rem[0] == sv[i as int]);
            assert(rem.drop_first() =~= sv.skip(i + 1 as int));
        }
        if str_starts_with_chars(subs[i].name.as_str(), last) {
            let mut t = subvec(joined, 0, joined.len());
            t.push(' ');
            push_str_chars(&mut t, subs[i].name.as_str());
            proof {
                assert(t@ =~= joined@ + seq![' '] + sv[i as int].name);
            }
            r.push(string_from_chars(&t));
            proof {
                assert(r.deep_view() =~~= r0.push(joined@ + seq![' '] + sv[i as int].name));
                assert(r0.push(joined@ + seq![' '] + rem[0].name) + sub_suggestions(
                    sv.skip(i + 1 as int),
                    last@,
                    joined@,
                ) =~= r0 + (seq![joined@ + seq![' '] + rem[0].name] + sub_suggestions(
                    sv.skip(i + 1 as int),
                    last@,
                    joined@,
                )));
            }
        }
        i = i + 1;
    }
    proof {
        assert(sv.skip(i as int) =~= Seq::<CommandModel>::empty());
        assert(r.deep_view() + sub_suggestions(sv.skip(i as int), last@, joined@) =~= r.deep_view());
    }
    r
}

/// The candidates that start with the partial value, as fresh strings.
fn prefix_filter_exec(cands: &Vec<Vec<char>>, partial: &Vec<char>) -> (r: Vec<String>)
    ensures
        r.deep_view() == prefix_filter(cands.deep_view(), partial@),
{
    let ghost cd = cands.deep_view();
    let mut r: Vec<String> = Vec::new();
    let mut i: usize = 0;
    proof {
        assert(cd.skip(0) =~= cd);
        assert(r.deep_view() + prefix_filter(cd, partial@) =~= prefix_filter(cd, partial@));
    }
    while i < cands.len()
        invariant
            i <= cands@.len(),
            cd == cands.deep_view(),
            cd.len() == cands@.len(),
            prefix_filter(cd, partial@) == r.deep_view() + prefix_filter(
                cd.skip(i as int),
                partial@,
            ),
        decreases cands@.len() - i,
    {
        let ghost r0 = r.deep_view();
        let ghost rem = cd.skip(i as int);
        proof {
            assert(rem[0] == cd[i as int]);
            assert(cd[i as int] =~= cands@[i as int]@);
            assert(rem.drop_first() =~= cd.skip(i + 1 as int));
        }
        if chars_start_with(&cands[i], partial) {
            r.push(string_from_chars(&cands[i]));
            proof {
                assert(r.deep_view() =~~= r0.push(rem[0]));
                assert(r0.push(rem[0]) + prefix_filter(cd.skip(i + 1 as int), partial@) =~= r0 + (
                seq![rem[0]] + prefix_filter(cd.skip(i + 1 as int), partial@)));
            }
        }
        i = i + 1;
    }
    proof {
        assert(cd.skip(i as int) =~= Seq::<Seq<char>>::empty());
        assert(r.deep_view() + prefix_filter(cd.skip(i as int), partial@) =~= r.deep_view());
    }
    r
}

/// Value suggestions for an argument and a partial value.
fn value_suggestions_exec(a: &CommandArg, partial: &Vec<char>) -> (r: Vec<String>)
    ensures
        r.deep_view() == value_suggestions(a@, partial@),
{
    if str_eq(a.arg_type.as_str(), "int") {
        let mut cands: Vec<Vec<char>> = Vec::new();
        cands.push(chars_of("0"));
        cands.push(chars_of("1"));
        cands.push(chars_of("10"));
        cands.push(chars_of("100"));
        proof {
            assert(cands.deep_view() =~~= int_pool());
        }
        prefix_filter_exec(&cands, partial)
    } else {
        match &a.default {
            Some(d) => {
                let mut cands: Vec<Vec<char>> = Vec::new();
                cands.push(chars_of(d.as_str()));
                proof {
                    assert(cands.deep_view() =~~= seq![a@.default->Some_0]);
                }
                prefix_filter_exec(&cands, partial)
            },
            None => {
                let r: Vec<String> = Vec::new();
                proof {
                    assert(r.deep_view() =~= Seq::<Seq<char>>::empty());
                }
                r
            },
        }
    }
}

/// Resolves the command named by the first `n` tokens, by exact matches.
fn resolve_tokens<'a>(cmds: &'a Vec<Command>, toks: &Vec<Vec<char>>, n: usize) -> (r: Option<
    &'a Command,
>)
    requires
        1 <= n <= toks@.len(),
    ensures
        match r {
            Some(c) => resolve_path(cmds_view(cmds@), toks.deep_view().take(n as int)) == Some(c@),
            None => resolve_path(cmds_view(cmds@), toks.deep_view().take(n as int)) is None,
        },
{
    let ghost cv = cmds_view(cmds@);
    let ghost path = toks.deep_view().take(n as int);
    proof {
        assert(toks.deep_view()[0] == path[0]);
    }
    let first = match find_in(cmds, &toks[0]) {
        Some(c) => c,
        None => {
            proof {
                assert(toks.deep_view()[0] =~= toks@[0]@);
                assert(find_named(cv, path[0]) is None);
            }
            return None;
        },
    };
    proof {
        assert(toks.deep_view()[0] =~= toks@[0]@);
    }
    let mut cur: &Command = first;
    let mut i: usize = 1;
    proof {
        assert(path.drop_first() =~= path.skip(1));
    }
    while i < n
        invariant
            1 <= i <= n <= toks@.len(),
            cv == cmds_view(cmds@),
            path == toks.deep_view().take(n as int),
            toks.deep_view().len() == toks@.len(),
            path.len() == n,
            resolve_path(cv, path) == resolve_from(cur@, path.skip(i as int)),
        decreases n - i,
    {
        let ghost rest = path.skip(i as int);
        proof {
            assert(toks.deep_view()[i as int] =~= toks@[i as int]@);
            assert(rest[0] == path[i as int]);
            assert(path[i as int] == toks.deep_view()[i as int]);
        }
        let nxt = match find_in(&cur.subcommands, &toks[i]) {
            Some(c) => c,
            None => {
                proof {
                    assert(find_named(cur@.subs, rest[0]) is None);
                    assert(resolve_path(cv, path) is None);
                }
                return None;
            },
        };
        proof {
            assert(rest.drop_first() =~= path.skip(i + 1 as int));
        }
        cur = nxt;
        i = i + 1;
    }
    proof {
        assert(path.skip(n as int) =~= Seq::<Seq<char>>::empty());
    }
    Some(cur)
}

impl CommandRegistry {
    /// The suggestion list and the inline hint for a partial input line.
    pub fn get_suggestions(&self, input: &str) -> (r: (Vec<String>, String))
        ensures
            r.0.deep_view() == suggest_result(self@, input@).0,
            r.1@ == suggest_result(self@, input@).1,
    {
        let chars = chars_of(input);
        let toks = tokenize(&chars);
        let ghost tv = tokens_of(input@);
        if toks.len() == 0 {
            let names = names_exec(&self.commands);
            return (names, String::new());
        }
        if toks.len() == 1 {
            proof {
                assert(toks.deep_view()[0] =~= toks@[0]@);
            }
            let names = prefix_names_exec(&self.commands, &toks[0]);
            return (names, String::new());
        }
        let n = toks.len() - 1;
        let ghost path = tv.take(n as int);
        let resolved = resolve_tokens(&self.commands, &toks, n);
        match resolved {
            None => {
                let empty_list: Vec<String> = Vec::new();
                proof {
                    assert(empty_list.deep_view() =~= Seq::<Seq<char>>::empty());
                }
                (empty_list, String::new())
            },
            Some(c) => {
                let last = &toks[n];
                proof {
                    assert(toks.deep_view()[n as int] =~= toks@[n as int]@);
                    assert(tv.last() == tv[n as int]);
                    lemma_colon_pos(toks@[n as int]@);
                }
                match find_first_colon(last) {
                    Some(p) => {
                        if c.args.len() > 0 {
                            let a = &c.args[0];
                            proof {
                                assert(a@ == c@.args[0]);
                            }
                            let mut hint_chars: Vec<char> = Vec::new();
                            push_hint(&mut hint_chars, a);
                            let hint = string_from_chars(&hint_chars);
                            let last_len = last.len();
                            proof {
                                assert(p < toks@[n as int]@.len());
                            }
                            let partial = subvec(last, p + 1, last_len);
                            proof {
                                assert(partial@ =~= colon_value(tv.last()));
                            }
                            let vals = value_suggestions_exec(a, &partial);
                            (vals, hint)
                        } else {
                            let empty_list: Vec<String> = Vec::new();
                            proof {
                                assert(empty_list.deep_view() =~= Seq::<Seq<char>>::empty());
                            }
                            (empty_list, String::new())
                        }
                    },
                    None => {
                        let joined = join_range(&toks, 0, n);
                        proof {
                            assert(toks.deep_view().subrange(0, n as int) =~= path);
                        }
                        let mut sugg = sub_suggestions_exec(&c.subcommands, last, &joined);
                        if c.args.len() > 0 {
                            let a = &c.args[0];
                            proof {
                                assert(a@ == c@.args[0]);
                            }
                            let ghost s0 = sugg.deep_view();
                            let mut t = subvec(&joined, 0, joined.len());
                            t.push(' ');
                            push_str_chars(&mut t, a.name.as_str());
                            t.push(':');
                            proof {
                                assert(t@ =~= join_tokens(path) + seq![' '] + c@.args[0].name
                                    + seq![':']);
                            }
                            let extra = string_from_chars(&t);
                            sugg.push(extra);
                            proof {
                                assert(sugg.deep_view() =~~= s0.push(
                                    join_tokens(path) + seq![' '] + c@.args[0].name + seq![':'],
                                ));
                                assert(s0.push(
                                    join_tokens(path) + seq![' '] + c@.args[0].name + seq![':'],
                                ) =~= s0 + seq![
                                    join_tokens(path) + seq![' '] + c@.args[0].name + seq![':'],
                                ]);
                            }
                            let mut hint_chars: Vec<char> = Vec::new();
                            push_hint(&mut hint_chars, a);
                            let hint = string_from_chars(&hint_chars);
                            (sugg, hint)
                        } else {
                            (sugg, String::new())
                        }
                    },
                }
            },
        }
    }
}


// ---------------------------------------------------------------------------
// Laws
// ---------------------------------------------------------------------------

/// Whether every required argument stands before every optional one.
pub open spec fn args_partitioned(args: Seq<ArgModel>) -> bool {
    forall|i: int, j: int| 0 <= i < j < args.len() && args[i].optional ==> args[j].optional
}

proof fn lemma_required_all(s: Seq<ArgModel>)
    ensures
        forall|i: int| 0 <= i < required_of(s).len() ==> !(#[trigger] required_of(s)[i]).optional,
        required_of(s).len() <= s.len(),
    decreases s.len(),
{
    if s.len() > 0 {
        lemma_required_all(s.drop_first());
        if !s[0].optional {
            assert forall|i: int| 0 <= i < required_of(s).len() implies !(#[trigger] required_of(
                s,
            )[i]).optional by {
                if i > 0 {
                    assert(required_of(s)[i] == required_of(s.drop_first())[i - 1]);
                }
            }
        }
    }
}

proof fn lemma_optional_all(s: Seq<ArgModel>)
    ensures
        forall|i: int| 0 <= i < optional_of(s).len() ==> (#[trigger] optional_of(s)[i]).optional,
        optional_of(s).len() <= s.len(),
    decreases s.len(),
{
    if s.len() > 0 {
        lemma_optional_all(s.drop_first());
        if s[0].optional {
            assert forall|i: int| 0 <= i < optional_of(s).len() implies (#[trigger] optional_of(
                s,
            )[i]).optional by {
                if i > 0 {
                    assert(optional_of(s)[i] == optional_of(s.drop_first())[i - 1]);
                }
            }
        }
    }
}

proof fn lemma_partition_lens(s: Seq<ArgModel>)
    ensures
        required_of(s).len() + optional_of(s).len() == s.len(),
    decreases s.len(),
{
    if s.len() > 0 {
        lemma_partition_lens(s.drop_first());
    }
}

proof fn lemma_required_concat(a: Seq<ArgModel>, b: Seq<ArgModel>)
    ensures
        required_of(a + b) == required_of(a) + required_of(b),
        optional_of(a + b) == optional_of(a) + optional_of(b),
    decreases a.len(),
{
    if a.len() == 0 {
        assert(a + b =~= b);
        assert(required_of(a) + required_of(b) =~= required_of(b));
        assert(optional_of(a) + optional_of(b) =~= optional_of(b));
    } else {
        lemma_required_concat(a.drop_first(), b);
        assert((a + b).drop_first() =~= a.drop_first() + b);
        assert((a + b)[0] == a[0]);
        if !a[0].optional {
            assert(required_of(a + b) =~= required_of(a) + required_of(b));
            assert(optional_of(a + b) =~= optional_of(a) + optional_of(b));
        } else {
            assert(required_of(a + b) =~= required_of(a) + required_of(b));
            assert(optional_of(a + b) =~= optional_of(a) + optional_of(b));
        }
    }
}

proof fn lemma_partition_of_pure(s: Seq<ArgModel>)
    ensures
        (forall|i: int| 0 <= i < s.len() ==> !(#[trigger] s[i]).optional) ==> required_of(s) == s
            && optional_of(s) == Seq::<ArgModel>::empty(),
        (forall|i: int| 0 <= i < s.len() ==> (#[trigger] s[i]).optional) ==> optional_of(s) == s
            && required_of(s) == Seq::<ArgModel>::empty(),
    decreases s.len(),
{
    if s.len() > 0 {
        lemma_partition_of_pure(s.drop_first());
        if forall|i: int| 0 <= i < s.len() ==> !(#[trigger] s[i]).optional {
            assert forall|i: int|
                0 <= i < s.drop_first().len() implies !(#[trigger] s.drop_first()[i]).optional by {
                assert(s.drop_first()[i] == s[i + 1]);
            }
            assert(required_of(s) =~= s);
        }
        if forall|i: int| 0 <= i < s.len() ==> (#[trigger] s[i]).optional {
            assert forall|i: int|
                0 <= i < s.drop_first().len() implies (#[trigger] s.drop_first()[i]).optional by {
                assert(s.drop_first()[i] == s[i + 1]);
            }
            assert(optional_of(s) =~= s);
        }
    }
}

/// Law: the stored argument order places every required argument before
/// every optional one, each partition keeping its original relative order,
/// and loses no argument.
pub proof fn lemma_reorder_properties(args: Seq<ArgModel>)
    ensures
        args_partitioned(reorder_args(args)),
        required_of(reorder_args(args)) == required_of(args),
        optional_of(reorder_args(args)) == optional_of(args),
        reorder_args(args).len() == args.len(),
{
    let req = required_of(args);
    let opt = optional_of(args);
    lemma_required_all(args);
    lemma_optional_all(args);
    lemma_partition_lens(args);
    lemma_required_concat(req, opt);
    lemma_partition_of_pure(req);
    lemma_partition_of_pure(opt);
    assert(required_of(reorder_args(args)) =~= required_of(args));
    assert(optional_of(reorder_args(args)) =~= optional_of(args));
    assert forall|i: int, j: int|
        0 <= i < j < reorder_args(args).len() && reorder_args(args)[i].optional
            implies reorder_args(args)[j].optional by {
        if i < req.len() {
            assert(reorder_args(args)[i] == req[i]);
        } else {
            assert(reorder_args(args)[j] == opt[j - req.len()]);
        }
    }
}

/// Law: every top-level entry that one registration call adds has its
/// required arguments before its optional ones.
pub proof fn lemma_reg_entries_partitioned(c: CommandModel)
    ensures
        forall|i: int|
            0 <= i < reg_entries(c).len() ==> args_partitioned(
                (#[trigger] reg_entries(c)[i]).args,
            ),
    decreases c,
{
    lemma_reorder_properties(c.args);
    lemma_reg_entries_list_partitioned(c.subs);
    assert forall|i: int|
        0 <= i < reg_entries(c).len() implies args_partitioned(
        (#[trigger] reg_entries(c)[i]).args,
    ) by {
        if i == 0 {
            assert(reg_entries(c)[0] == registered_view(c));
        } else {
            assert(reg_entries(c)[i] == reg_entries_list(c.subs)[i - 1]);
        }
    }
}

pub proof fn lemma_reg_entries_list_partitioned(cs: Seq<CommandModel>)
    ensures
        forall|i: int|
            0 <= i < reg_entries_list(cs).len() ==> args_partitioned(
                (#[trigger] reg_entries_list(cs)[i]).args,
            ),
    decreases cs, cs.len(),
{
    if cs.len() > 0 {
        lemma_reg_entries_partitioned(cs[0]);
        lemma_reg_entries_list_partitioned(cs.drop_first());
        let h = reg_entries(cs[0]);
        assert forall|i: int|
            0 <= i < reg_entries_list(cs).len() implies args_partitioned(
            (#[trigger] reg_entries_list(cs)[i]).args,
        ) by {
            if i < h.len() {
                assert(reg_entries_list(cs)[i] == h[i]);
            } else {
                assert(reg_entries_list(cs)[i] == reg_entries_list(cs.drop_first())[i - h.len()]);
            }
        }
    }
}

/// Law: a three-token path resolves exactly when the chain of exact name
/// matches exists: a top-level command named `a` with a subcommand named
/// `b` which has a subcommand named `c`.  Any broken link yields absence.
pub proof fn lemma_find_three_level_path(
    cmds: Seq<CommandModel>,
    a: Seq<char>,
    b: Seq<char>,
    c: Seq<char>,
)
    ensures
        resolve_path(cmds, seq![a, b, c]) is Some <==> ({
            &&& find_named(cmds, a) matches Some(c1)
            &&& find_named(c1.subs, b) matches Some(c2)
            &&& find_named(c2.subs, c) is Some
        }),
{
    let path = seq![a, b, c];
    assert(path[0] == a);
    assert(path.drop_first() =~= seq![b, c]);
    assert(seq![b, c][0] == b);
    assert(seq![b, c].drop_first() =~= seq![c]);
    assert(seq![c][0] == c);
    assert(seq![c].drop_first() =~= Seq::<Seq<char>>::empty());
    match find_named(cmds, a) {
        None => {
            assert(resolve_path(cmds, path) is None);
        },
        Some(c1) => {
            assert(resolve_path(cmds, path) == resolve_from(c1, seq![b, c]));
            match find_named(c1.subs, b) {
                None => {
                    assert(resolve_from(c1, seq![b, c]) is None);
                },
                Some(c2) => {
                    assert(resolve_from(c1, seq![b, c]) == resolve_from(c2, seq![c]));
                    match find_named(c2.subs, c) {
                        None => {
                            assert(resolve_from(c2, seq![c]) is None);
                        },
                        Some(c3) => {
                            assert(resolve_from(c2, seq![c]) == resolve_from(
                                c3,
                                Seq::<Seq<char>>::empty(),
                            ));
                            assert(resolve_from(c3, Seq::<Seq<char>>::empty()) == Some(c3));
                        },
                    }
                },
            }
        },
    }
}

/// Law: suggestions for an input with no tokens are exactly the top-level
/// command names, in registration order, with an empty hint.
pub proof fn lemma_suggest_empty_input(cmds: Seq<CommandModel>, input: Seq<char>)
    requires
        tokens_of(input).len() == 0,
    ensures
        suggest_result(cmds, input).0 == names_of(cmds),
        suggest_result(cmds, input).1 == Seq::<char>::empty(),
{
}

/// Law: suggestions for a one-token input are exactly the names of the
/// top-level commands that start with that token, in registration order,
/// with an empty hint.
pub proof fn lemma_suggest_one_token(cmds: Seq<CommandModel>, input: Seq<char>)
    requires
        tokens_of(input).len() == 1,
    ensures
        suggest_result(cmds, input).0 == prefix_names(cmds, tokens_of(input)[0]),
        suggest_result(cmds, input).1 == Seq::<char>::empty(),
{
}

/// Law: `prefix_names` keeps exactly the names that start with the prefix:
/// every listed name is some command's name with that prefix, and every
/// command whose name has the prefix is listed.
pub proof fn lemma_prefix_names_exact(cmds: Seq<CommandModel>, p: Seq<char>)
    ensures
        forall|i: int|
            0 <= i < prefix_names(cmds, p).len() ==> p.is_prefix_of(
                #[trigger] prefix_names(cmds, p)[i],
            ),
        forall|j: int|
            0 <= j < cmds.len() && p.is_prefix_of(cmds[j].name) ==> prefix_names(
                cmds,
                p,
            ).contains(#[trigger] cmds[j].name),
    decreases cmds.len(),
{
    if cmds.len() > 0 {
        lemma_prefix_names_exact(cmds.drop_first(), p);
        let out = prefix_names(cmds, p);
        let rest = prefix_names(cmds.drop_first(), p);
        assert forall|i: int| 0 <= i < out.len() implies p.is_prefix_of(#[trigger] out[i]) by {
            if p.is_prefix_of(cmds[0].name) {
                if i > 0 {
                    assert(out[i] == rest[i - 1]);
                }
            } else {
                assert(out[i] == rest[i]);
            }
        }
        assert forall|j: int|
            0 <= j < cmds.len() && p.is_prefix_of(cmds[j].name) implies out.contains(
            #[trigger] cmds[j].name,
        ) by {
            if j == 0 {
                assert(out[0] == cmds[0].name);
            } else {
                assert(cmds.drop_first()[j - 1] == cmds[j]);
                assert(rest.contains(cmds[j].name));
                let w = choose|w: int| 0 <= w < rest.len() && rest[w] == cmds[j].name;
                if p.is_prefix_of(cmds[0].name) {
                    assert(out[w + 1] == rest[w]);
                } else {
                    assert(out[w] == rest[w]);
                }
            }
        }
    }
}

/// Law: the read paths are pure.  What the suggestion and execution paths
/// may return is a function of the registry's value and the input alone —
/// two registries with equal contents answer alike — and both take the
/// registry by shared reference, so no query changes what a later identical
/// query sees.
pub proof fn lemma_read_paths_pure(
    r1: Seq<CommandModel>,
    r2: Seq<CommandModel>,
    input: Seq<char>,
)
    requires
        r1 == r2,
    ensures
        suggest_result(r1, input) == suggest_result(r2, input),
        deepest_match(r1, tokens_of(input)) == deepest_match(r2, tokens_of(input)),
        resolve_path(r1, tokens_of(input)) == resolve_path(r2, tokens_of(input)),
{
}

} // verus!



