use ivy_core::editor::plugin::{EditorPlugin, EDITOR_PLUGIN_KEY, RAY_PICKING_PLUGIN_KEY};
use ivy_core::editor::tools::physics_tool::{PhysicsToolPlugin, PHYSICS_TOOL_PLUGIN_KEY};
use ivy_core::editor::tools::transform_tool::{TransformToolPlugin, TRANSFORM_TOOL_PLUGIN_KEY};
use ivy_core::editor::tools_controller::{ToolsControllerPlugin, TOOLS_CONTROLLER_PLUGIN_KEY};
use ivy_core::transforms::{TransformUpdatePlugin, TRANSFORM_UPDATE_PLUGIN_KEY};
use ivy_core::update_layer::{
    collect_dependencies, install_in_order, run_tick, sort_declared_plugins, sort_dependencies, sort_plugins, Plugin,
    PluginError, PluginInstaller, ScheduleRunner, ScheduleStep,
};

struct Named {
    key: &'static str,
    before: Vec<&'static str>,
    after: Vec<&'static str>,
}

impl Plugin for Named {
    fn key(&self) -> String {
        self.key.to_string()
    }

    fn before(&self) -> Vec<String> {
        self.before.iter().map(|s| s.to_string()).collect()
    }

    fn after(&self) -> Vec<String> {
        self.after.iter().map(|s| s.to_string()).collect()
    }
}

fn named(key: &'static str, before: &[&'static str], after: &[&'static str]) -> Box<dyn Plugin> {
    Box::new(Named { key, before: before.to_vec(), after: after.to_vec() })
}

fn strings(v: &[&str]) -> Vec<String> {
    v.iter().map(|s| s.to_string()).collect()
}

fn position(order: &[usize], index: usize) -> usize {
    order.iter().position(|&i| i == index).unwrap()
}

#[test]
fn independent_plugins_keep_their_order() {
    let deps: Vec<Vec<usize>> = vec![vec![], vec![], vec![]];
    assert_eq!(sort_dependencies(&deps).ok(), Some(vec![0, 1, 2]));
}

#[test]
fn dependencies_are_sorted_before_their_dependents() {
    // 0 depends on 2, 2 depends on 1.
    let deps: Vec<Vec<usize>> = vec![vec![2], vec![], vec![1]];
    assert_eq!(sort_dependencies(&deps).ok(), Some(vec![1, 2, 0]));
}

#[test]
fn empty_graph_sorts_to_nothing() {
    let deps: Vec<Vec<usize>> = vec![];
    assert_eq!(sort_dependencies(&deps).ok(), Some(vec![]));
}

#[test]
fn cycle_reports_the_dependency_that_closes_it() {
    // 0 -> 1 -> 2 -> 0
    let deps: Vec<Vec<usize>> = vec![vec![1], vec![2], vec![0]];
    assert_eq!(sort_dependencies(&deps).err(), Some((2, 0)));
}

#[test]
fn self_dependency_is_a_cycle() {
    let deps: Vec<Vec<usize>> = vec![vec![], vec![1]];
    assert_eq!(sort_dependencies(&deps).err(), Some((1, 1)));
}

#[test]
fn after_and_before_become_dependencies() {
    let keys = strings(&["a", "b", "c"]);
    let befores = vec![strings(&["c"]), vec![], vec![]];
    let afters = vec![vec![], strings(&["a", "c"]), vec![]];
    let deps = collect_dependencies(&keys, &befores, &afters).ok().unwrap();
    // b runs after a and c; a runs before c.
    assert_eq!(deps, vec![vec![], vec![0, 2], vec![0]]);
}

#[test]
fn unknown_dependency_is_reported() {
    let keys = strings(&["a", "b"]);
    let befores = vec![vec![], vec![]];
    let afters = vec![vec![], strings(&["missing"])];
    match collect_dependencies(&keys, &befores, &afters) {
        Err(PluginError::UnknownDependency { plugin, dependency }) => {
            assert_eq!(plugin, "b");
            assert_eq!(dependency, "missing");
        }
        _ => panic!("expected an unknown dependency"),
    }
}

#[test]
fn unknown_dependent_is_reported() {
    let keys = strings(&["a"]);
    let befores = vec![strings(&["nowhere"])];
    let afters = vec![vec![]];
    match sort_declared_plugins(&keys, &befores, &afters) {
        Err(PluginError::UnknownDependency { plugin, dependency }) => {
            assert_eq!(plugin, "a");
            assert_eq!(dependency, "nowhere");
        }
        _ => panic!("expected an unknown dependency"),
    }
}

#[test]
fn a_name_refers_to_the_last_plugin_with_that_key() {
    let keys = strings(&["dup", "dup", "x"]);
    let befores = vec![vec![], vec![], vec![]];
    let afters = vec![vec![], vec![], strings(&["dup"])];
    let deps = collect_dependencies(&keys, &befores, &afters).ok().unwrap();
    assert_eq!(deps, vec![vec![], vec![], vec![1]]);
}

#[test]
fn declared_plugins_are_sorted() {
    let keys = strings(&["render", "physics", "input"]);
    let befores = vec![vec![], vec![], strings(&["physics"])];
    let afters = vec![strings(&["physics"]), vec![], vec![]];
    let order = sort_declared_plugins(&keys, &befores, &afters).ok().unwrap();
    assert_eq!(order, vec![2, 1, 0]);
}

#[test]
fn circular_declaration_is_reported() {
    let keys = strings(&["a", "b"]);
    let befores = vec![vec![], vec![]];
    let afters = vec![strings(&["b"]), strings(&["a"])];
    match sort_declared_plugins(&keys, &befores, &afters) {
        Err(PluginError::CircularDependency { plugin, dependency_index }) => {
            assert_eq!(plugin, "b");
            assert_eq!(dependency_index, 0);
        }
        _ => panic!("expected a circular dependency"),
    }
}

#[test]
fn plugins_are_sorted_by_their_declarations() {
    let plugins = vec![
        named("late", &[], &["early"]),
        named("early", &[], &[]),
        named("first", &["early"], &[]),
    ];
    let order = sort_plugins(&plugins).ok().unwrap();
    assert_eq!(order, vec![2, 1, 0]);
    assert!(position(&order, 1) < position(&order, 0));
    assert!(position(&order, 2) < position(&order, 1));
}

#[test]
fn editor_plugin_runs_after_its_tools() {
    let editor = EditorPlugin;
    assert_eq!(editor.key(), EDITOR_PLUGIN_KEY);
    assert_eq!(
        editor.after(),
        strings(&[
            TRANSFORM_TOOL_PLUGIN_KEY,
            RAY_PICKING_PLUGIN_KEY,
            PHYSICS_TOOL_PLUGIN_KEY,
            TOOLS_CONTROLLER_PLUGIN_KEY
        ])
    );
    assert!(editor.before().is_empty());

    let plugins: Vec<Box<dyn Plugin>> = vec![
        Box::new(EditorPlugin),
        Box::new(TransformToolPlugin),
        named(RAY_PICKING_PLUGIN_KEY, &[], &[]),
        Box::new(PhysicsToolPlugin),
        Box::new(ToolsControllerPlugin),
    ];
    let order = sort_plugins(&plugins).ok().unwrap();
    assert_eq!(order, vec![1, 2, 3, 4, 0]);
}

#[test]
fn editor_plugin_without_its_tools_is_refused() {
    let plugins: Vec<Box<dyn Plugin>> = vec![Box::new(EditorPlugin)];
    match sort_plugins(&plugins) {
        Err(PluginError::UnknownDependency { plugin, dependency }) => {
            assert_eq!(plugin, EDITOR_PLUGIN_KEY);
            assert_eq!(dependency, TRANSFORM_TOOL_PLUGIN_KEY);
        }
        _ => panic!("expected an unknown dependency"),
    }
}

#[test]
fn transform_update_plugin_is_known_by_its_key() {
    let plugin = TransformUpdatePlugin;
    assert_eq!(plugin.key(), TRANSFORM_UPDATE_PLUGIN_KEY);
    assert!(plugin.before().is_empty() && plugin.after().is_empty());

    let plugins: Vec<Box<dyn Plugin>> =
        vec![named("physics", &[], &[TRANSFORM_UPDATE_PLUGIN_KEY]), Box::new(TransformUpdatePlugin)];
    assert_eq!(sort_plugins(&plugins).ok(), Some(vec![1, 0]));
}

#[test]
fn plugins_without_declarations_keep_their_order() {
    let plugins = vec![named("x", &[], &[]), named("y", &[], &[]), named("z", &[], &[])];
    assert_eq!(sort_plugins(&plugins).ok(), Some(vec![0, 1, 2]));
    let none: Vec<Box<dyn Plugin>> = Vec::new();
    assert_eq!(sort_plugins(&none).ok(), Some(vec![]));
}

#[test]
fn before_and_after_order_three_plugins() {
    let plugins = vec![named("a", &[], &["c"]), named("b", &["a"], &[]), named("c", &[], &[])];
    let order = sort_plugins(&plugins).ok().unwrap();
    let keys: Vec<String> = order.iter().map(|&i| plugins[i].key()).collect();
    assert_eq!(keys, strings(&["c", "b", "a"]));
}

struct Recorder {
    installed: Vec<usize>,
    fails_at: Option<usize>,
}

impl PluginInstaller for Recorder {
    type Error = usize;

    fn install(&mut self, index: usize) -> Result<(), usize> {
        self.installed.push(index);
        if self.fails_at == Some(index) {
            Err(index)
        } else {
            Ok(())
        }
    }
}

#[test]
fn plugins_are_installed_in_order() {
    let mut recorder = Recorder { installed: Vec::new(), fails_at: None };
    assert_eq!(install_in_order(&mut recorder, &vec![2, 0, 1]), Ok(()));
    assert_eq!(recorder.installed, vec![2, 0, 1]);
}

#[test]
fn installing_stops_at_the_first_failure() {
    let mut recorder = Recorder { installed: Vec::new(), fails_at: Some(0) };
    assert_eq!(install_in_order(&mut recorder, &vec![2, 0, 1]), Err(0));
    assert_eq!(recorder.installed, vec![2, 0]);
}

struct Steps {
    ran: Vec<ScheduleStep>,
    fails_at: Option<ScheduleStep>,
}

impl ScheduleRunner for Steps {
    type Error = ScheduleStep;

    fn run(&mut self, step: ScheduleStep) -> Result<(), ScheduleStep> {
        self.ran.push(step);
        if self.fails_at == Some(step) {
            Err(step)
        } else {
            Ok(())
        }
    }
}

#[test]
fn startup_runs_on_the_first_tick_only() {
    let mut steps = Steps { ran: Vec::new(), fails_at: None };
    let mut pending = true;
    assert_eq!(run_tick(&mut steps, &mut pending), Ok(()));
    assert!(!pending);
    assert_eq!(run_tick(&mut steps, &mut pending), Ok(()));
    assert_eq!(
        steps.ran,
        vec![
            ScheduleStep::Startup,
            ScheduleStep::FixedTimeStep,
            ScheduleStep::PerTick,
            ScheduleStep::FixedTimeStep,
            ScheduleStep::PerTick,
        ]
    );
}

#[test]
fn a_failing_schedule_ends_the_tick() {
    let mut steps = Steps { ran: Vec::new(), fails_at: Some(ScheduleStep::Startup) };
    let mut pending = true;
    assert_eq!(run_tick(&mut steps, &mut pending), Err(ScheduleStep::Startup));
    assert!(!pending);
    assert_eq!(steps.ran, vec![ScheduleStep::Startup]);

    let mut steps = Steps { ran: Vec::new(), fails_at: Some(ScheduleStep::FixedTimeStep) };
    let mut pending = false;
    assert_eq!(run_tick(&mut steps, &mut pending), Err(ScheduleStep::FixedTimeStep));
    assert_eq!(steps.ran, vec![ScheduleStep::FixedTimeStep]);
}
