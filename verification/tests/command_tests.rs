use std::rc::Rc;

use termprompt::command::{
    Command, CommandArg, CommandHandler, CommandRegistry, HandlerRef,
};

struct EchoHandler;

impl CommandHandler for EchoHandler {
    fn run(&self, args: Vec<(String, String)>) -> String {
        let mut parts: Vec<String> = Vec::new();
        for (k, v) in args {
            parts.push(format!("{}={}", k, v));
        }
        parts.join(",")
    }
}

fn echo() -> Option<HandlerRef> {
    Some(Rc::new(Box::new(EchoHandler) as Box<dyn CommandHandler>))
}

fn arg(name: &str, ty: &str, range: Option<(i32, i32)>, optional: bool, default: Option<&str>) -> CommandArg {
    CommandArg {
        name: name.to_string(),
        arg_type: ty.to_string(),
        range,
        optional,
        default: default.map(|d| d.to_string()),
    }
}

fn cmd(name: &str, args: Vec<CommandArg>, subcommands: Vec<Command>, with_handler: bool) -> Command {
    Command {
        name: name.to_string(),
        args,
        subcommands,
        handler: if with_handler { echo() } else { None },
    }
}

fn give_grab_registry() -> CommandRegistry {
    let mut reg = CommandRegistry::new();
    reg.register_command(cmd(
        "give",
        vec![
            arg("item", "string", None, false, None),
            arg("count", "int", Some((1, 99)), true, Some("1")),
        ],
        vec![],
        true,
    ));
    reg.register_command(cmd("grab", vec![], vec![], true));
    reg
}

#[test]
fn suggest_empty_input_lists_all_names_in_order() {
    let reg = give_grab_registry();
    let (suggestions, hint) = reg.get_suggestions("");
    assert_eq!(suggestions, vec!["give".to_string(), "grab".to_string()]);
    assert_eq!(hint, "");
}

#[test]
fn suggest_prefix_filters_names() {
    let reg = give_grab_registry();
    let (suggestions, hint) = reg.get_suggestions("gi");
    assert_eq!(suggestions, vec!["give".to_string()]);
    assert_eq!(hint, "");
    let (all, _) = reg.get_suggestions("g");
    assert_eq!(all, vec!["give".to_string(), "grab".to_string()]);
    let (none, _) = reg.get_suggestions("x");
    assert!(none.is_empty());
}

#[test]
fn find_three_level_path_needs_every_link() {
    let mut reg = CommandRegistry::new();
    reg.register_command(cmd(
        "a",
        vec![],
        vec![cmd("b", vec![], vec![cmd("c", vec![], vec![], false)], false)],
        false,
    ));
    assert!(reg.find_command("a b c").is_some());
    assert!(reg.find_command("a b").is_some());
    assert!(reg.find_command("a").is_some());
    assert!(reg.find_command("a c").is_none());
    assert!(reg.find_command("a b d").is_none());
    // Registration flattens subcommands to top level, so the subtree is
    // also reachable from its own root.
    assert!(reg.find_command("b c").is_some());
    assert!(reg.find_command("c").is_some());
    assert!(reg.find_command("c b").is_none());
}

#[test]
fn registration_flattens_subcommands_to_top_level() {
    let mut reg = CommandRegistry::new();
    reg.register_command(cmd(
        "a",
        vec![],
        vec![cmd("b", vec![], vec![], true)],
        false,
    ));
    assert_eq!(reg.commands.len(), 2);
    assert_eq!(reg.commands[0].name, "a");
    assert_eq!(reg.commands[1].name, "b");
    assert!(reg.find_command("b").is_some());
}

#[test]
fn registration_reorders_required_before_optional() {
    let mut reg = CommandRegistry::new();
    reg.register_command(cmd(
        "mix",
        vec![
            arg("opt_one", "string", None, true, Some("x")),
            arg("req_one", "string", None, false, None),
            arg("opt_two", "string", None, true, None),
            arg("req_two", "int", None, false, None),
        ],
        vec![],
        false,
    ));
    let names: Vec<&str> = reg.commands[0].args.iter().map(|a| a.name.as_str()).collect();
    assert_eq!(names, vec!["req_one", "req_two", "opt_one", "opt_two"]);
    let flags: Vec<bool> = reg.commands[0].args.iter().map(|a| a.optional).collect();
    assert_eq!(flags, vec![false, false, true, true]);
}

#[test]
fn execute_binds_positional_then_default() {
    let reg = give_grab_registry();
    let out = reg.execute_command("give sword");
    assert_eq!(out, Some("item=sword,count=1".to_string()));
}

#[test]
fn execute_missing_required_argument() {
    let reg = give_grab_registry();
    let out = reg.execute_command("give");
    assert_eq!(out, Some("Missing required argument: item".to_string()));
}

#[test]
fn execute_binds_named_arguments() {
    let reg = give_grab_registry();
    let out = reg.execute_command("give item:sword count:5");
    assert_eq!(out, Some("item=sword,count=5".to_string()));
}

#[test]
fn execute_later_named_value_overrides_earlier() {
    let reg = give_grab_registry();
    let out = reg.execute_command("give item:a item:b");
    assert_eq!(out, Some("item=b,count=1".to_string()));
}

#[test]
fn execute_no_match_and_no_handler() {
    let mut reg = CommandRegistry::new();
    reg.register_command(cmd("quiet", vec![], vec![], false));
    assert_eq!(reg.execute_command("nothing here"), None);
    assert_eq!(reg.execute_command("quiet"), None);
    assert_eq!(reg.execute_command(""), None);
}

#[test]
fn execute_resolves_longest_prefix_and_runs_nested_handler() {
    let mut reg = CommandRegistry::new();
    reg.register_command(cmd(
        "outer",
        vec![],
        vec![cmd(
            "inner",
            vec![arg("v", "string", None, false, None)],
            vec![],
            true,
        )],
        false,
    ));
    let out = reg.execute_command("outer inner hello");
    assert_eq!(out, Some("v=hello".to_string()));
}

#[test]
fn suggest_subcommands_render_full_paths() {
    let mut reg = CommandRegistry::new();
    reg.register_command(cmd(
        "give",
        vec![],
        vec![
            cmd("sword", vec![], vec![], false),
            cmd("shield", vec![], vec![], false),
        ],
        false,
    ));
    let (suggestions, hint) = reg.get_suggestions("give s");
    assert_eq!(
        suggestions,
        vec!["give sword".to_string(), "give shield".to_string()]
    );
    assert_eq!(hint, "");
}

#[test]
fn suggest_appends_named_argument_prompt_and_hint() {
    let reg = give_grab_registry();
    let (suggestions, hint) = reg.get_suggestions("give s");
    assert_eq!(suggestions, vec!["give item:".to_string()]);
    assert_eq!(hint, "<item:string>");
}

#[test]
fn suggest_int_value_pool_filtered_by_partial_value() {
    let mut reg = CommandRegistry::new();
    reg.register_command(cmd(
        "set",
        vec![arg("n", "int", Some((1, 99)), true, Some("1"))],
        vec![],
        false,
    ));
    let (suggestions, hint) = reg.get_suggestions("set n:1");
    assert_eq!(
        suggestions,
        vec!["1".to_string(), "10".to_string(), "100".to_string()]
    );
    assert_eq!(hint, "<n:int {1..99}>?1");
    let (all, _) = reg.get_suggestions("set n:");
    assert_eq!(
        all,
        vec!["0".to_string(), "1".to_string(), "10".to_string(), "100".to_string()]
    );
}

#[test]
fn suggest_string_value_offers_default() {
    let mut reg = CommandRegistry::new();
    reg.register_command(cmd(
        "name",
        vec![arg("who", "string", None, true, Some("world"))],
        vec![],
        false,
    ));
    let (suggestions, hint) = reg.get_suggestions("name who:wo");
    assert_eq!(suggestions, vec!["world".to_string()]);
    assert_eq!(hint, "<who:string>?world");
}

#[test]
fn suggest_unresolved_path_is_empty() {
    let reg = give_grab_registry();
    let (suggestions, hint) = reg.get_suggestions("nosuch tok");
    assert!(suggestions.is_empty());
    assert_eq!(hint, "");
}

#[test]
fn read_paths_leave_registry_unchanged() {
    let reg = give_grab_registry();
    let first = reg.get_suggestions("gi");
    let _ = reg.execute_command("give sword");
    let _ = reg.find_command("give");
    let second = reg.get_suggestions("gi");
    assert_eq!(first, second);
    let again = reg.execute_command("give sword");
    assert_eq!(again, Some("item=sword,count=1".to_string()));
    assert_eq!(reg.commands.len(), 2);
}

#[test]
fn shared_handlers_run_from_both_registered_copies() {
    let mut reg = CommandRegistry::new();
    reg.register_command(cmd(
        "parent",
        vec![],
        vec![cmd("child", vec![], vec![], true)],
        false,
    ));
    // Through the nested path, and through the flattened top-level entry.
    assert_eq!(reg.execute_command("parent child"), Some(String::new()));
    assert_eq!(reg.execute_command("child"), Some(String::new()));
}
