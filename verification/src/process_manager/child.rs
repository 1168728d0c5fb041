//! The command line and the environment that the process of a service gets.

use crate::name_map::NameMap;
use crate::names::{names, sorted_names};
use crate::process_manager::service::{ConfigData, Service};
use crate::process_manager::service_manager::ServiceManager;
use crate::text::{join_texts, joined_text, strictly_sorted};
use vstd::prelude::*;

verus! {

/// The texts that names stand for.
pub open spec fn texts(map: Map<Seq<char>, String>) -> Map<Seq<char>, Seq<char>> {
    Map::new(|n: Seq<char>| map.contains_key(n), |n: Seq<char>| map[n]@)
}

/// The variables in a list. Of several values for a name, the last one counts.
pub open spec fn collected(vars: Seq<(String, String)>) -> Map<Seq<char>, Seq<char>>
    decreases vars.len(),
{
    if vars.len() == 0 {
        Map::empty()
    } else {
        collected(vars.drop_last()).insert(vars.last().0@, vars.last().1@)
    }
}

/// The environment of a service: the given variables, with `XDG_CONFIG_HOME` set to the
/// directory of the service's configuration files.
pub open spec fn child_vars(
    vars: Seq<(String, String)>,
    config_home: Seq<char>,
) -> Map<Seq<char>, Seq<char>> {
    collected(vars).insert("XDG_CONFIG_HOME"@, config_home)
}

/// Names stand for the same texts, one for one.
pub proof fn law_texts_one_for_one(map: Map<Seq<char>, String>, n: Seq<char>)
    ensures
        texts(map).contains_key(n) <==> map.contains_key(n),
        map.contains_key(n) ==> texts(map)[n] == map[n]@,
{
}

/// In the environment of a service, every name that is given and is not `XDG_CONFIG_HOME` has the
/// value that is given last for it.
pub proof fn law_environment_keeps_last_values(
    vars: Seq<(String, String)>,
    config_home: Seq<char>,
    i: int,
)
    requires
        0 <= i < vars.len(),
        vars[i].0@ != "XDG_CONFIG_HOME"@,
        forall|k: int| i < k < vars.len() ==> (#[trigger] vars[k]).0@ != vars[i].0@,
    ensures
        child_vars(vars, config_home).contains_key(vars[i].0@),
        child_vars(vars, config_home)[vars[i].0@] == vars[i].1@,
{
    lemma_collected_last(vars, i);
}

proof fn lemma_collected_last(vars: Seq<(String, String)>, i: int)
    requires
        0 <= i < vars.len(),
        forall|k: int| i < k < vars.len() ==> (#[trigger] vars[k]).0@ != vars[i].0@,
    ensures
        collected(vars).contains_key(vars[i].0@),
        collected(vars)[vars[i].0@] == vars[i].1@,
    decreases vars.len(),
{
    let init = vars.drop_last();
    if i < init.len() {
        assert forall|k: int| i < k < init.len() implies (#[trigger] init[k]).0@ != init[i].0@ by {
            assert(vars[k].0@ != vars[i].0@);
        }
        lemma_collected_last(init, i);
        assert(vars[vars.len() - 1].0@ != vars[i].0@);
    }
}

/// The environment of a service holds `XDG_CONFIG_HOME`, with the directory of the service's
/// configuration files, and otherwise only names that are given.
pub proof fn law_environment_holds_nothing_else(
    vars: Seq<(String, String)>,
    config_home: Seq<char>,
    n: Seq<char>,
)
    ensures
        child_vars(vars, config_home).contains_key("XDG_CONFIG_HOME"@),
        child_vars(vars, config_home)["XDG_CONFIG_HOME"@] == config_home,
        child_vars(vars, config_home).contains_key(n) <==> n == "XDG_CONFIG_HOME"@ || exists|i: int|
            0 <= i < vars.len() && (#[trigger] vars[i]).0@ == n,
{
    lemma_collected_names(vars, n);
}

proof fn lemma_collected_names(vars: Seq<(String, String)>, n: Seq<char>)
    ensures
        collected(vars).contains_key(n) <==> exists|i: int|
            0 <= i < vars.len() && (#[trigger] vars[i]).0@ == n,
    decreases vars.len(),
{
    if vars.len() > 0 {
        let init = vars.drop_last();
        lemma_collected_names(init, n);
        assert(vars[vars.len() - 1] == vars.last());
        if exists|i: int| 0 <= i < init.len() && (#[trigger] init[i]).0@ == n {
            let i = choose|i: int| 0 <= i < init.len() && (#[trigger] init[i]).0@ == n;
            assert(vars[i].0@ == n);
        }
        if exists|i: int| 0 <= i < vars.len() && (#[trigger] vars[i]).0@ == n {
            let i = choose|i: int| 0 <= i < vars.len() && (#[trigger] vars[i]).0@ == n;
            if i < init.len() {
                assert(init[i].0@ == n);
            }
        }
    }
}

fn insert_text(env: &mut NameMap<String, String>, name: String, value: String)
    ensures
        texts(final(env)@) == texts(old(env)@).insert(name@, value@),
{
    let ghost before = env@;
    let ghost entry = (name@, value@);
    env.insert(name, value);
    proof {
        assert(texts(env@) =~= texts(before).insert(entry.0, entry.1));
    }
}

/// The environment of a service.
pub fn child_env(vars: &Vec<(String, String)>, config_home: &str) -> (env: NameMap<String, String>)
    ensures
        texts(env@) == child_vars(vars@, config_home@),
        env@.contains_key("XDG_CONFIG_HOME"@) && env@["XDG_CONFIG_HOME"@]@ == config_home@,
        forall|i: int|
            0 <= i < vars@.len() && (#[trigger] vars@[i]).0@ != "XDG_CONFIG_HOME"@ && (forall|k: int|
                i < k < vars@.len() ==> (#[trigger] vars@[k]).0@ != vars@[i].0@)
                ==> env@.contains_key(vars@[i].0@) && env@[vars@[i].0@]@ == vars@[i].1@,
        forall|n: Seq<char>| #[trigger]
            env@.contains_key(n) && n != "XDG_CONFIG_HOME"@ ==> exists|i: int|
                0 <= i < vars@.len() && (#[trigger] vars@[i]).0@ == n,
{
    let mut env: NameMap<String, String> = NameMap::new();
    let mut i: usize = 0;
    proof {
        assert(vars@.take(0) =~= Seq::empty());
        assert(texts(env@) =~= Map::empty());
    }
    while i < vars.len()
        invariant
            0 <= i <= vars@.len(),
            texts(env@) == collected(vars@.take(i as int)),
        decreases vars@.len() - i,
    {
        insert_text(&mut env, vars[i].0.clone(), vars[i].1.clone());
        proof {
            assert(vars@.take(i + 1).drop_last() =~= vars@.take(i as int));
        }
        i += 1;
    }
    proof {
        assert(vars@.take(i as int) =~= vars@);
    }
    insert_text(&mut env, "XDG_CONFIG_HOME".to_owned(), config_home.to_owned());
    proof {
        let home = "XDG_CONFIG_HOME"@;
        law_texts_one_for_one(env@, home);
        assert(texts(env@).contains_key(home));
        assert forall|i: int|
            0 <= i < vars@.len() && (#[trigger] vars@[i]).0@ != home && (forall|k: int|
                i < k < vars@.len() ==> (#[trigger] vars@[k]).0@ != vars@[i].0@) implies env@.contains_key(
            vars@[i].0@,
        ) && env@[vars@[i].0@]@ == vars@[i].1@ by {
            law_environment_keeps_last_values(vars@, config_home@, i);
            law_texts_one_for_one(env@, vars@[i].0@);
        }
        assert forall|n: Seq<char>| #[trigger] env@.contains_key(n) && n != home implies exists|i: int|
            0 <= i < vars@.len() && (#[trigger] vars@[i]).0@ == n by {
            law_environment_holds_nothing_else(vars@, config_home@, n);
            law_texts_one_for_one(env@, n);
        }
    }
    env
}

/// The value of a variable.
pub fn lookup(env: &NameMap<String, String>, var: &str) -> (value: Option<String>)
    ensures
        match value {
            Some(text) => texts(env@).contains_key(var@) && text@ == texts(env@)[var@],
            None => !texts(env@).contains_key(var@),
        },
        value is Some <==> env@.contains_key(var@),
        value is Some ==> value->0@ == env@[var@]@,
{
    match env.get(var) {
        Some(text) => Some(text.clone()),
        None => None,
    }
}

/// What `shellexpand::full_with_context` makes of a text under the given variables, without a
/// home directory.
pub uninterp spec fn expanded_text(
    text: Seq<char>,
    vars: Map<Seq<char>, Seq<char>>,
) -> Seq<char>;

/// A text that holds a reference `${var}` to a variable.
pub open spec fn with_reference(
    head: Seq<char>,
    var: Seq<char>,
    tail: Seq<char>,
) -> Seq<char> {
    head + "${"@ + var + "}"@ + tail
}

/// A text that holds a reference `$var` to a variable.
pub open spec fn with_plain_reference(
    head: Seq<char>,
    var: Seq<char>,
    tail: Seq<char>,
) -> Seq<char> {
    head + "$"@ + var + tail
}

/// A name that can stand in a reference with braces. A colon could begin a default value.
pub open spec fn fits_braces(var: Seq<char>) -> bool {
    !var.contains('}') && !var.contains(':')
}

/// An ASCII letter or digit, or an underscore.
pub open spec fn is_word_char(c: char) -> bool {
    ('a' <= c && c <= 'z') || ('A' <= c && c <= 'Z') || ('0' <= c && c <= '9') || c == '_'
}

/// A name that can stand in a reference without braces.
pub open spec fn is_word(var: Seq<char>) -> bool {
    var.len() > 0 && forall|i: int| 0 <= i < var.len() ==> is_word_char(#[trigger] var[i])
}

/// A text that does not continue a name before it: it is empty, or begins with an ASCII
/// character that no name can hold.
pub open spec fn ends_word(tail: Seq<char>) -> bool {
    tail.len() == 0 || (tail[0] <= '~' && !is_word_char(tail[0]))
}

/// What a reference stands for: the variable's value, or itself if there is none.
pub open spec fn referenced(
    vars: Map<Seq<char>, Seq<char>>,
    var: Seq<char>,
    reference: Seq<char>,
) -> Seq<char> {
    if vars.contains_key(var) {
        vars[var]
    } else {
        reference
    }
}

/// What is known of the expansion of a text. A text without a dollar sign stays as it is. A
/// reference to a variable, if no dollar sign comes before it, is replaced by what it stands
/// for, and what comes behind it is expanded by itself.
pub open spec fn expands_to(
    text: Seq<char>,
    vars: Map<Seq<char>, Seq<char>>,
    expanded: Seq<char>,
) -> bool {
    &&& expanded == expanded_text(text, vars)
    &&& !text.contains('$') ==> expanded == text
    &&& forall|head: Seq<char>, var: Seq<char>, tail: Seq<char>|
        text == #[trigger] with_reference(head, var, tail) && !head.contains('$') && fits_braces(
            var,
        ) ==> expanded == head + referenced(vars, var, "${"@ + var + "}"@) + expanded_text(
            tail,
            vars,
        )
    &&& forall|head: Seq<char>, var: Seq<char>, tail: Seq<char>|
        text == #[trigger] with_plain_reference(head, var, tail) && !head.contains('$') && is_word(
            var,
        ) && ends_word(tail) ==> expanded == head + referenced(vars, var, "$"@ + var)
            + expanded_text(tail, vars)
}

/// Calls `shellexpand::full_with_context` on a text, with the given variables and without a
/// home directory.
///
/// The result depends on the text and the variables alone. A text without `$` is returned
/// unchanged: a leading tilde stays, since there is no home directory. Where the first `$` of a
/// text begins a reference `${var}`, with neither `}` nor `:` in the name, or a reference `$var`,
/// with a name of ASCII letters, digits and underscores that goes no further, that reference
/// becomes the variable's value, or stays if there is none, and the rest is expanded in the same
/// way. Nothing more is said of other uses of `$`. The call fails only where the lookup does,
/// which it never does here.
#[verifier::external_body]
pub(crate) fn expand(text: &str, env: &NameMap<String, String>) -> (expanded: String)
    ensures
        expanded@ == expanded_text(text@, texts(env@)),
        expands_to(text@, texts(env@), expanded@),
{
    shellexpand::full_with_context(
        text,
        || None::<String>,
        |var: &str| Ok::<Option<String>, std::convert::Infallible>(lookup(env, var)),
    ).unwrap().into_owned()
}

/// The arguments of a service, each one expanded.
pub fn expand_args(args: &Vec<String>, env: &NameMap<String, String>) -> (expanded: Vec<String>)
    ensures
        expanded@.len() == args@.len(),
        forall|i: int|
            0 <= i < args@.len() ==> expands_to(
                args@[i]@,
                texts(env@),
                #[trigger] expanded@[i]@,
            ),
{
    let mut expanded: Vec<String> = Vec::new();
    let mut i: usize = 0;
    while i < args.len()
        invariant
            0 <= i <= args@.len(),
            expanded@.len() == i,
            forall|k: int|
                0 <= k < i ==> expands_to(args@[k]@, texts(env@), #[trigger] expanded@[k]@),
        decreases args@.len() - i,
    {
        expanded.push(expand(args[i].as_str(), env));
        i += 1;
    }
    expanded
}

/// How the process of a service is created.
#[derive(Debug)]
pub struct ChildPlan {
    /// The program to run
    pub binary: String,
    /// The arguments that the program gets
    pub args: Vec<String>,
    /// The value of `XDG_CONFIG_HOME` that the process gets
    pub config_home: String,
    /// What is logged before the process is created
    pub log: Vec<String>,
}

/// The log line of a configuration file.
pub open spec fn config_line(name: Seq<char>, source: Seq<char>) -> Seq<char> {
    "Config: "@ + name + " -> "@ + source
}

/// The log lines of the configuration files that are provided.
pub open spec fn config_lines(
    order: Seq<Seq<char>>,
    data: Map<Seq<char>, ConfigData>,
) -> Seq<Seq<char>>
    decreases order.len(),
{
    if order.len() == 0 {
        Seq::empty()
    } else {
        let lines = config_lines(order.drop_last(), data);
        if data[order.last()].enable {
            lines.push(config_line(order.last(), data[order.last()].source@))
        } else {
            lines
        }
    }
}

/// The log line of a variable.
pub open spec fn env_line(name: Seq<char>, value: Seq<char>) -> Seq<char> {
    "Environment: "@ + name + "="@ + value
}

/// The log lines of the variables of the given names.
pub open spec fn env_lines(
    keys: Seq<Seq<char>>,
    vars: Map<Seq<char>, Seq<char>>,
) -> Seq<Seq<char>> {
    Seq::new(keys.len(), |i: int| env_line(keys[i], vars[keys[i]]))
}

/// The names of all variables, in order.
pub open spec fn are_sorted_keys(
    keys: Seq<Seq<char>>,
    vars: Map<Seq<char>, Seq<char>>,
) -> bool {
    strictly_sorted(keys) && keys.to_set() == vars.dom()
}

/// The last two log lines: the configuration directory and the command line.
pub open spec fn command_lines(
    config_home: Seq<char>,
    binary: Seq<char>,
    args: Seq<Seq<char>>,
) -> Seq<Seq<char>> {
    seq![
        "XDG_CONFIG_HOME="@ + config_home,
        "Running: "@ + binary + " "@ + joined_text(args, " "@),
    ]
}

/// What is logged before the process of a service is created: the configuration files that it
/// gets, its environment in the order of the names, and its command line.
pub open spec fn is_launch_log(
    service: Service,
    vars: Map<Seq<char>, Seq<char>>,
    config_home: Seq<char>,
    args: Seq<Seq<char>>,
    log: Seq<Seq<char>>,
) -> bool {
    exists|keys: Seq<Seq<char>>| #[trigger]
        are_sorted_keys(keys, vars) && log == config_lines(
            service.config_data.order(),
            service.config_data@,
        ) + env_lines(keys, vars) + command_lines(config_home, service.process.argv.binary@, args)
}

fn push_line(log: &mut Vec<String>, a: &str, b: &str, c: &str, d: &str)
    ensures
        names(final(log)@) == names(old(log)@).push(a@ + b@ + c@ + d@),
{
    let ghost before = names(log@);
    let mut line: String = a.to_owned();
    line.append(b);
    line.append(c);
    line.append(d);
    log.push(line);
    proof {
        assert(names(log@) =~= before.push(a@ + b@ + c@ + d@));
    }
}

/// Logs the configuration files that are provided.
fn log_config(service: &Service) -> (log: Vec<String>)
    ensures
        names(log@) == config_lines(service.config_data.order(), service.config_data@),
{
    let data = &service.config_data;
    let ghost order = data.order();
    let total: usize = data.len();
    let mut log: Vec<String> = Vec::new();
    let mut i: usize = 0;
    proof {
        assert(order.take(0) =~= Seq::empty());
        assert(names(log@) =~= Seq::empty());
    }
    while i < total
        invariant
            0 <= i <= total,
            total == order.len(),
            order == data.order(),
            names(log@) == config_lines(order.take(i as int), data@),
        decreases total - i,
    {
        let file = data.value_at(i);
        proof {
            assert(order.take(i + 1).drop_last() =~= order.take(i as int));
            assert(order.take(i + 1).last() == order[i as int]);
        }
        if file.enable {
            push_line(&mut log, "Config: ", data.key_at(i).as_str(), " -> ", file.source.as_str());
        }
        i += 1;
    }
    proof {
        assert(order.take(i as int) =~= order);
    }
    log
}

/// The names of all variables, in order.
fn sorted_keys(env: &NameMap<String, String>) -> (keys: Vec<String>)
    ensures
        are_sorted_keys(names(keys@), texts(env@)),
{
    let total: usize = env.len();
    let ghost order = env.order();
    let mut keys: Vec<String> = Vec::new();
    let mut i: usize = 0;
    proof {
        assert(names(keys@) =~= order.take(0));
    }
    while i < total
        invariant
            0 <= i <= total,
            total == order.len(),
            order == env.order(),
            names(keys@) == order.take(i as int),
        decreases total - i,
    {
        let ghost so_far = names(keys@);
        keys.push(env.key_at(i).clone());
        proof {
            assert(names(keys@) =~= so_far.push(order[i as int]));
            assert(order.take(i + 1) =~= so_far.push(order[i as int]));
        }
        i += 1;
    }
    proof {
        assert(order.take(i as int) =~= order);
        env.lemma_order();
        assert(texts(env@).dom() =~= env@.dom());
    }
    sorted_names(&keys)
}

/// Plans the process of a service whose arguments have been expanded.
pub fn plan_child(
    service: &Service,
    env: &NameMap<String, String>,
    config_home: &str,
    expanded_args: Vec<String>,
) -> (plan: ChildPlan)
    ensures
        plan.binary@ == service.process.argv.binary@,
        plan.args@ == expanded_args@,
        plan.config_home@ == config_home@,
        is_launch_log(
            *service,
            texts(env@),
            config_home@,
            names(expanded_args@),
            names(plan.log@),
        ),
{
    let mut log = log_config(service);
    let ghost first = names(log@);
    let keys = sorted_keys(env);
    let ghost vars = texts(env@);
    let ghost sorted = names(keys@);
    let mut i: usize = 0;
    proof {
        assert(names(log@) =~= first + env_lines(sorted.take(0), vars));
    }
    while i < keys.len()
        invariant
            0 <= i <= keys@.len(),
            sorted == names(keys@),
            vars == texts(env@),
            are_sorted_keys(sorted, vars),
            names(log@) == first + env_lines(sorted.take(i as int), vars),
        decreases keys@.len() - i,
    {
        proof {
            assert(sorted.to_set().contains(sorted[i as int]));
            assert(vars.contains_key(sorted[i as int]));
        }
        match env.get(keys[i].as_str()) {
            Some(value) => {
                push_line(&mut log, "Environment: ", keys[i].as_str(), "=", value.as_str());
                proof {
                    assert(env_lines(sorted.take(i + 1), vars) =~= env_lines(
                        sorted.take(i as int),
                        vars,
                    ).push(env_line(sorted[i as int], vars[sorted[i as int]])));
                    assert(names(log@) =~= first + env_lines(sorted.take(i + 1), vars));
                }
            },
            None => {},
        }
        i += 1;
    }
    proof {
        assert(sorted.take(i as int) =~= sorted);
    }
    let binary = service.process.argv.binary.as_str();
    let command = join_texts(&expanded_args, " ");
    let ghost before = names(log@);
    push_line(&mut log, "XDG_CONFIG_HOME=", config_home, "", "");
    push_line(&mut log, "Running: ", binary, " ", command.as_str());
    proof {
        reveal_strlit("");
        let lines = command_lines(config_home@, binary@, names(expanded_args@));
        assert("XDG_CONFIG_HOME="@ + config_home@ + ""@ + ""@ =~= lines[0]);
        assert(names(log@) =~= before + lines);
        assert(names(log@) =~= first + env_lines(sorted, vars) + lines);
        assert(are_sorted_keys(sorted, vars));
    }
    ChildPlan {
        binary: binary.to_owned(),
        args: expanded_args,
        config_home: config_home.to_owned(),
        log,
    }
}

impl ServiceManager {
    /// Plans the process of the service, for a process manager that runs with the given
    /// variables.
    pub fn child_plan(&self, vars: &Vec<(String, String)>) -> (plan: ChildPlan)
        ensures
            plan.binary@ == self.service.process.argv.binary@,
            plan.args@.len() == self.service.process.argv.args@.len(),
            forall|i: int|
                0 <= i < plan.args@.len() ==> expands_to(
                    self.service.process.argv.args@[i]@,
                    child_vars(vars@, self.config_dir@),
                    #[trigger] plan.args@[i]@,
                ),
            plan.config_home@ == self.config_dir@,
            is_launch_log(
                self.service,
                child_vars(vars@, self.config_dir@),
                self.config_dir@,
                names(plan.args@),
                names(plan.log@),
            ),
    {
        let env = child_env(vars, self.config_dir.as_str());
        let expanded_args = expand_args(&self.service.process.argv.args, &env);
        plan_child(&self.service, &env, self.config_dir.as_str(), expanded_args)
    }
}

/// An argument that refers to `XDG_CONFIG_HOME` gets the directory of the service's
/// configuration files, whatever value the variable has in the process manager itself.
pub proof fn law_config_home_reference(
    vars: Seq<(String, String)>,
    config_home: Seq<char>,
    head: Seq<char>,
    tail: Seq<char>,
    text: Seq<char>,
    expanded: Seq<char>,
)
    requires
        !head.contains('$'),
        text == with_reference(head, "XDG_CONFIG_HOME"@, tail) || (text == with_plain_reference(
            head,
            "XDG_CONFIG_HOME"@,
            tail,
        ) && ends_word(tail)),
        expands_to(text, child_vars(vars, config_home), expanded),
    ensures
        expanded == head + config_home + expanded_text(tail, child_vars(vars, config_home)),
{
    reveal_strlit("XDG_CONFIG_HOME");
    assert(is_word("XDG_CONFIG_HOME"@));
    assert(fits_braces("XDG_CONFIG_HOME"@));
}

/// An expanded text without a dollar sign is the text itself. Where the first dollar sign begins
/// a reference with braces, the variable's value stands in place of the reference, or the
/// reference itself if there is none, and what comes behind it is expanded by itself.
pub proof fn law_braced_reference_is_replaced(
    vars: Map<Seq<char>, Seq<char>>,
    head: Seq<char>,
    var: Seq<char>,
    tail: Seq<char>,
    expanded: Seq<char>,
)
    requires
        !head.contains('$'),
        !var.contains('}') && !var.contains(':'),
        expands_to(head + "${"@ + var + "}"@ + tail, vars, expanded),
    ensures
        vars.contains_key(var) ==> expanded == head + vars[var] + expanded_text(tail, vars),
        !vars.contains_key(var) ==> expanded == head + ("${"@ + var + "}"@) + expanded_text(
            tail,
            vars,
        ),
{
    assert(with_reference(head, var, tail) == head + "${"@ + var + "}"@ + tail);
}

/// The same holds of a reference without braces, if its name consists of ASCII letters, digits
/// and underscores and ends with the text or ahead of another ASCII character.
pub proof fn law_plain_reference_is_replaced(
    vars: Map<Seq<char>, Seq<char>>,
    head: Seq<char>,
    var: Seq<char>,
    tail: Seq<char>,
    expanded: Seq<char>,
)
    requires
        !head.contains('$'),
        var.len() > 0,
        forall|i: int|
            0 <= i < var.len() ==> {
                ||| 'a' <= #[trigger] var[i] && var[i] <= 'z'
                ||| 'A' <= var[i] && var[i] <= 'Z'
                ||| '0' <= var[i] && var[i] <= '9'
                ||| var[i] == '_'
            },
        tail.len() > 0 ==> tail[0] <= '~' && !('a' <= tail[0] && tail[0] <= 'z') && !('A'
            <= tail[0] && tail[0] <= 'Z') && !('0' <= tail[0] && tail[0] <= '9') && tail[0] != '_',
        expands_to(head + "$"@ + var + tail, vars, expanded),
    ensures
        vars.contains_key(var) ==> expanded == head + vars[var] + expanded_text(tail, vars),
        !vars.contains_key(var) ==> expanded == head + ("$"@ + var) + expanded_text(tail, vars),
{
    assert(with_plain_reference(head, var, tail) == head + "$"@ + var + tail);
    assert(is_word(var)) by {
        assert forall|i: int| 0 <= i < var.len() implies is_word_char(#[trigger] var[i]) by {}
    }
}

/// A text without a dollar sign stays as it is.
pub proof fn law_text_without_reference_stays(
    vars: Map<Seq<char>, Seq<char>>,
    text: Seq<char>,
    expanded: Seq<char>,
)
    requires
        forall|i: int| 0 <= i < text.len() ==> #[trigger] text[i] != '$',
        expands_to(text, vars, expanded),
    ensures
        expanded == text,
{
}

/// The configuration files are logged one by one, in order: a line for each that is provided, and
/// none for the others.
pub proof fn law_provided_files_are_logged(
    order: Seq<Seq<char>>,
    file: Seq<char>,
    data: Map<Seq<char>, ConfigData>,
)
    ensures
        config_lines(Seq::empty(), data) == Seq::<Seq<char>>::empty(),
        data[file].enable ==> config_lines(order.push(file), data) == config_lines(
            order,
            data,
        ).push("Config: "@ + file + " -> "@ + data[file].source@),
        !data[file].enable ==> config_lines(order.push(file), data) == config_lines(order, data),
{
    assert(order.push(file).drop_last() =~= order);
}

proof fn lemma_config_lines(
    order: Seq<Seq<char>>,
    data: Map<Seq<char>, ConfigData>,
    line: Seq<char>,
)
    ensures
        config_lines(order, data).contains(line) <==> exists|i: int|
            0 <= i < order.len() && data[#[trigger] order[i]].enable && line == config_line(
                order[i],
                data[order[i]].source@,
            ),
    decreases order.len(),
{
    if order.len() > 0 {
        let init = order.drop_last();
        let last = order.len() - 1;
        let part = config_lines(init, data);
        lemma_config_lines(init, data, line);
        let shown = config_line(order.last(), data[order.last()].source@);
        crate::names::lemma_push_to_set(part, shown);
        assert(part.push(shown).to_set().contains(line) <==> part.to_set().contains(line) || line
            == shown);
        assert(order[last] == order.last());
        if part.contains(line) {
            let i = choose|i: int|
                0 <= i < init.len() && data[#[trigger] init[i]].enable && line == config_line(
                    init[i],
                    data[init[i]].source@,
                );
            assert(order[i] == init[i]);
        }
        if exists|i: int|
            0 <= i < order.len() && data[#[trigger] order[i]].enable && line == config_line(
                order[i],
                data[order[i]].source@,
            ) {
            let i = choose|i: int|
                0 <= i < order.len() && data[#[trigger] order[i]].enable && line == config_line(
                    order[i],
                    data[order[i]].source@,
                );
            if i < last {
                assert(init[i] == order[i]);
            }
        }
    }
}

/// Every line about configuration files is that of a file that is provided.
pub proof fn law_only_provided_files_are_logged(
    order: Seq<Seq<char>>,
    data: Map<Seq<char>, ConfigData>,
    i: int,
)
    requires
        0 <= i < config_lines(order, data).len(),
    ensures
        exists|k: int|
            0 <= k < order.len() && data[#[trigger] order[k]].enable && config_lines(order, data)[i]
                == "Config: "@ + order[k] + " -> "@ + data[order[k]].source@,
{
    let line = config_lines(order, data)[i];
    assert(config_lines(order, data).contains(line));
    lemma_config_lines(order, data, line);
    let k = choose|k: int|
        0 <= k < order.len() && data[#[trigger] order[k]].enable && line == config_line(
            order[k],
            data[order[k]].source@,
        );
    assert(data[order[k]].enable && line == "Config: "@ + order[k] + " -> "@
        + data[order[k]].source@);
}

/// What is logged before the process of a service is created ends with its configuration
/// directory and its command line. Ahead of these come the lines of its configuration files, with
/// one for each that is provided, and then one for each of its variables, in the order of their
/// names. There are no other lines.
pub proof fn law_launch_log_tells_all(
    service: Service,
    vars: Map<Seq<char>, Seq<char>>,
    config_home: Seq<char>,
    args: Seq<Seq<char>>,
    log: Seq<Seq<char>>,
) -> (first: int)
    requires
        is_launch_log(service, vars, config_home, args, log),
    ensures
        0 <= first <= log.len() - 2,
        log[log.len() - 2] == "XDG_CONFIG_HOME="@ + config_home,
        log[log.len() - 1] == "Running: "@ + service.process.argv.binary@ + " "@ + joined_text(
            args,
            " "@,
        ),
        forall|n: Seq<char>| #[trigger]
            service.config_data@.contains_key(n) && service.config_data@[n].enable ==> log.take(
                first,
            ).contains("Config: "@ + n + " -> "@ + service.config_data@[n].source@),
        log.take(first) == config_lines(service.config_data.order(), service.config_data@),
        exists|keys: Seq<Seq<char>>| #[trigger]
            strictly_sorted(keys) && keys.len() == log.len() - 2 - first && (forall|n: Seq<char>|
                #[trigger] keys.contains(n) <==> vars.contains_key(n)) && (forall|i: int|
                0 <= i < keys.len() ==> log[first + i] == "Environment: "@ + (#[trigger] keys[i])
                    + "="@ + vars[keys[i]]),
{
    let order = service.config_data.order();
    let data = service.config_data@;
    let keys = choose|keys: Seq<Seq<char>>| #[trigger]
        are_sorted_keys(keys, vars) && log == config_lines(order, data) + env_lines(keys, vars)
            + command_lines(config_home, service.process.argv.binary@, args);
    let files = config_lines(order, data);
    let first = files.len() as int;
    service.config_data.lemma_order();
    assert(log.take(first) =~= files);
    assert forall|n: Seq<char>| #[trigger]
        data.contains_key(n) && data[n].enable implies log.take(first).contains(
        "Config: "@ + n + " -> "@ + data[n].source@,
    ) by {
        lemma_config_lines(order, data, config_line(n, data[n].source@));
        assert(order.contains(n));
        let i = choose|i: int| 0 <= i < order.len() && order[i] == n;
        assert(data[order[i]].enable);
    }
    assert forall|n: Seq<char>| #[trigger] keys.contains(n) <==> vars.contains_key(n) by {
        assert(keys.to_set().contains(n) <==> vars.dom().contains(n));
    }
    assert forall|i: int| 0 <= i < keys.len() implies log[first + i] == "Environment: "@ + (
    #[trigger] keys[i]) + "="@ + vars[keys[i]] by {
        assert(log[first + i] == env_lines(keys, vars)[i]);
    }
    assert(strictly_sorted(keys));
    first
}

} // verus!
