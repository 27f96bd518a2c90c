//! Whole runs of small instrumented programs, checked through the report.

use datir::inference::AbstractTypeInference;
use datir::tagged_value::TaggedValue;
use std::collections::{HashMap, HashSet};

type Value = TaggedValue<u32>;

/// Delimiter that opens the analysis part of a program's output.
fn analysis_start() -> &'static str {
    "===ATI-ANALYSIS-START===\n"
}

/// Delimiter that closes the block of each site.
fn site_delim() -> &'static str {
    "---\n"
}

/// Cuts off everything a program printed before its analysis.
fn analysis_section(output: &str) -> String {
    let start = output.find(analysis_start()).unwrap();
    output[(start + analysis_start().len())..].into()
}

/// Checks that the analysis holds exactly the expected sites, and at each
/// site exactly the expected partition of its variables.
fn verify(mut ati_stdout: &str, expected_partition: &HashMap<&str, HashMap<&str, usize>>) {
    let mut found_sites = HashSet::new();
    while let Some(end) = ati_stdout.find(site_delim()) {
        let site_info: Vec<_> = ati_stdout[..end].split("\n").collect();
        let site_name = site_info[0];

        assert!(!found_sites.contains(site_name));
        found_sites.insert(site_name);

        let mut site_ati_output = HashMap::new();
        for var_info in &site_info[1..] {
            if var_info.len() < 3 {
                continue;
            }

            let var_split: Vec<_> = var_info.split(":").collect();
            site_ati_output.insert(var_split[0], str::parse::<usize>(var_split[1]).unwrap());
        }

        let expected_site = expected_partition.get(site_name);
        assert!(expected_site.is_some(), "Did not expect {site_name} to exist.");

        let expected_site = expected_site.unwrap();
        assert!(expected_site.len() == site_ati_output.len());

        let mut actual_to_expected = HashMap::new();
        let mut expected_to_actual = HashMap::new();

        for (var, actual_id) in site_ati_output.iter() {
            if let Some(prev_expected_id) = actual_to_expected.get(actual_id) {
                let expected_id = expected_site.get(var).unwrap();
                assert!(
                    *prev_expected_id == expected_id,
                    "In {site_name}, expected {var} to be in set {prev_expected_id}, but found {expected_id}"
                );
            } else {
                let expected_id = expected_site.get(var);
                assert!(expected_id.is_some());

                let expected_id = expected_id.unwrap();
                assert!(
                    !expected_to_actual.contains_key(expected_id),
                    "In {site_name}, {var} is apart from the rest of set {expected_id}"
                );
                actual_to_expected.insert(actual_id, expected_id);
                expected_to_actual.insert(expected_id, actual_id);
            }
        }

        ati_stdout = &ati_stdout[(end + site_delim().len())..];
    }

    assert!(found_sites.len() == expected_partition.len());
}

/// What an instrumented function does on entry.
fn enter(ati: &mut AbstractTypeInference, func: &str, params: &[(&str, &Value)]) {
    let mut site = ati.get_site(&format!("{func}::ENTER"));
    for (name, value) in params {
        site.bind_param(name, value);
    }
    ati.update_site(site).unwrap();
}

/// What an instrumented function does before it returns.
fn exit(ati: &mut AbstractTypeInference, func: &str, params: &[(&str, &Value)], ret: Option<Value>) -> Option<Value> {
    let mut site = ati.get_site(&format!("{func}::EXIT"));
    for (name, value) in params {
        site.bind_param(name, value);
    }
    let ret = ret.map(|value| site.bind("RET", value));
    ati.update_site(site).unwrap();
    ret
}

/// Runs `body` as an instrumented `main` and returns what it prints.
fn run_main(body: fn(&mut AbstractTypeInference)) -> String {
    let mut ati = AbstractTypeInference::new();
    enter(&mut ati, "main", &[]);
    body(&mut ati);
    exit(&mut ati, "main", &[], None);
    format!("program output\n{}", ati.report())
}

fn implicit_return(ati: &mut AbstractTypeInference, x: Value, y: Value, z: Value) -> Value {
    let params = [("x", &x), ("y", &y), ("z", &z)];
    enter(ati, "implicit_return", &params);
    let res = x.add(&y, ati);
    exit(ati, "implicit_return", &params, Some(res)).unwrap()
}

fn explicit_return(ati: &mut AbstractTypeInference, x: Value, y: Value, z: Value) -> Value {
    let params = [("x", &x), ("y", &y), ("z", &z)];
    enter(ati, "explicit_return", &params);
    let res = y.add(&z, ati);
    exit(ati, "explicit_return", &params, Some(res)).unwrap()
}

fn explicit_unsemi_return(ati: &mut AbstractTypeInference, x: Value, y: Value, z: Value) -> Value {
    let params = [("x", &x), ("y", &y), ("z", &z)];
    enter(ati, "explicit_unsemi_return", &params);
    let res = x.add(&z, ati);
    exit(ati, "explicit_unsemi_return", &params, Some(res)).unwrap()
}

fn nested_return(ati: &mut AbstractTypeInference, func: &str, x: Value, y: Value, z: Value) -> Value {
    let params = [("x", &x), ("y", &y), ("z", &z)];
    enter(ati, func, &params);
    let hundred = ati.track(100);
    let res = if z.partial_cmp(&hundred, ati) == Some(std::cmp::Ordering::Less) {
        x.add(&y, ati)
    } else {
        x.add(&z, ati)
    };
    exit(ati, func, &params, Some(res)).unwrap()
}

fn call3(
    ati: &mut AbstractTypeInference,
    func: fn(&mut AbstractTypeInference, Value, Value, Value) -> Value,
    x: u32,
    y: u32,
    z: u32,
) -> Value {
    let x = ati.track(x);
    let y = ati.track(y);
    let z = ati.track(z);
    func(ati, x, y, z)
}

fn nested_implicit_return(ati: &mut AbstractTypeInference, x: Value, y: Value, z: Value) -> Value {
    nested_return(ati, "nested_implicit_return", x, y, z)
}

fn nested_explicit_return(ati: &mut AbstractTypeInference, x: Value, y: Value, z: Value) -> Value {
    nested_return(ati, "nested_explicit_return", x, y, z)
}

fn returns_main(ati: &mut AbstractTypeInference) {
    assert_eq!(call3(ati, implicit_return, 1, 2, 3).unbind(), 3);
    assert_eq!(call3(ati, explicit_return, 10, 20, 30).unbind(), 50);
    assert_eq!(call3(ati, explicit_unsemi_return, 100, 200, 300).unbind(), 400);

    assert_eq!(call3(ati, nested_explicit_return, 1, 2, 99).unbind(), 3);
    assert_eq!(call3(ati, nested_explicit_return, 3, 4, 101).unbind(), 104);

    assert_eq!(call3(ati, nested_implicit_return, 10, 20, 99).unbind(), 30);
    assert_eq!(call3(ati, nested_implicit_return, 30, 40, 101).unbind(), 131);
}

#[test]
fn different_kinds_of_returns() {
    let mut expected = HashMap::new();
    expected.insert("main::ENTER", HashMap::new());
    expected.insert("main::EXIT", HashMap::new());
    expected.insert("implicit_return::ENTER", HashMap::from([("x", 0), ("y", 1), ("z", 2)]));
    expected.insert("implicit_return::EXIT", HashMap::from([("x", 0), ("y", 0), ("z", 1), ("RET", 0)]));
    expected.insert("explicit_return::ENTER", HashMap::from([("x", 0), ("y", 1), ("z", 2)]));
    expected.insert("explicit_return::EXIT", HashMap::from([("x", 1), ("y", 0), ("z", 0), ("RET", 0)]));
    expected.insert("explicit_unsemi_return::ENTER", HashMap::from([("x", 0), ("y", 1), ("z", 2)]));
    expected.insert("explicit_unsemi_return::EXIT", HashMap::from([("x", 0), ("y", 1), ("z", 0), ("RET", 0)]));
    expected.insert("nested_implicit_return::ENTER", HashMap::from([("x", 0), ("y", 0), ("z", 1)]));
    expected.insert("nested_implicit_return::EXIT", HashMap::from([("x", 0), ("y", 0), ("z", 0), ("RET", 0)]));
    expected.insert("nested_explicit_return::ENTER", HashMap::from([("x", 0), ("y", 0), ("z", 1)]));
    expected.insert("nested_explicit_return::EXIT", HashMap::from([("x", 0), ("y", 0), ("z", 0), ("RET", 0)]));

    let ati_output = analysis_section(&run_main(returns_main));
    verify(&ati_output, &expected);
}

fn foo(ati: &mut AbstractTypeInference, x: Value, y: Value, z: Value) -> Value {
    let params = [("x", &x), ("y", &y), ("z", &z)];
    enter(ati, "foo", &params);
    let res = x.add(&y, ati);
    exit(ati, "foo", &params, Some(res)).unwrap()
}

fn simple_main(ati: &mut AbstractTypeInference) {
    assert_eq!(call3(ati, foo, 10, 20, 30).unbind(), 30);
}

#[test]
fn mod_simple() {
    let mut expected = HashMap::new();
    expected.insert("main::ENTER", HashMap::new());
    expected.insert("main::EXIT", HashMap::new());
    expected.insert("foo::ENTER", HashMap::from([("x", 0), ("y", 1), ("z", 2)]));
    expected.insert("foo::EXIT", HashMap::from([("x", 0), ("y", 0), ("z", 1), ("RET", 0)]));

    let ati_output = analysis_section(&run_main(simple_main));
    verify(&ati_output, &expected);
}

fn max(ati: &mut AbstractTypeInference, x: Value, y: Value) -> Value {
    let params = [("x", &x), ("y", &y)];
    enter(ati, "max", &params);
    let res = if x.partial_cmp(&y, ati) == Some(std::cmp::Ordering::Greater) { x } else { y };
    exit(ati, "max", &params, Some(res)).unwrap()
}

#[test]
fn main_simple() {
    let mut expected = HashMap::new();
    expected.insert("main", HashMap::new());
    expected.insert("max::ENTER", HashMap::from([("x", 0), ("y", 1)]));
    expected.insert("max::EXIT", HashMap::from([("x", 0), ("y", 0), ("RET", 0)]));

    let mut ati = AbstractTypeInference::new();
    let site = ati.get_site("main");
    let x = ati.track(7);
    let y = ati.track(9);
    assert_eq!(max(&mut ati, x, y).unbind(), 9);
    ati.update_site(site).unwrap();
    let output = format!("7 9\n{}", ati.report());

    verify(&analysis_section(&output), &expected);
}

struct Pair {
    first: Value,
    second: Value,
}

fn func(ati: &mut AbstractTypeInference, x: Value, y: Value, z: Value) -> Value {
    let params = [("x", &x), ("y", &y), ("z", &z)];
    enter(ati, "func", &params);
    let pair = Pair { first: x, second: y };
    let res = pair.first.add(&pair.second, ati);
    exit(ati, "func", &params, Some(res)).unwrap()
}

fn struct_main(ati: &mut AbstractTypeInference) {
    assert_eq!(call3(ati, func, 4, 5, 6).unbind(), 9);
}

#[test]
fn uses_struct() {
    let mut expected = HashMap::new();
    expected.insert("main::ENTER", HashMap::new());
    expected.insert("main::EXIT", HashMap::new());
    expected.insert("func::ENTER", HashMap::from([("x", 0), ("y", 1), ("z", 2)]));
    expected.insert("func::EXIT", HashMap::from([("x", 0), ("y", 0), ("z", 1), ("RET", 0)]));

    let ati_output = analysis_section(&run_main(struct_main));
    verify(&ati_output, &expected);
}

fn collections_main(ati: &mut AbstractTypeInference) {
    let mut numbers = Vec::new();
    for n in 0..5u32 {
        numbers.push(ati.track(n));
    }
    let mut total = ati.track(0);
    for n in &numbers {
        total = total.add(n, ati);
    }
    assert_eq!(total.unbind(), 10);
}

#[test]
fn collections() {
    let mut expected = HashMap::new();
    expected.insert("main::ENTER", HashMap::new());
    expected.insert("main::EXIT", HashMap::new());

    let ati_output = analysis_section(&run_main(collections_main));
    verify(&ati_output, &expected);
}
