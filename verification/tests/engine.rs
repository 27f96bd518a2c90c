//! The coordinator: tracking, interaction, checkout and report.

use datir::inference::AbstractTypeInference;
use datir::site::UnregisteredTag;
use datir::sites::Sites;
use datir::site::Site;
use datir::tagged_value::TaggedValue;
use std::cmp::Ordering;

#[test]
fn track_pairs_the_value_with_the_next_tag() {
    let mut ati = AbstractTypeInference::new();
    assert_eq!(ati.issued(), 0);
    let a = ati.track(3u32);
    let b = ati.track('q');
    let c = ati.track(true);
    assert_eq!((a.value, a.id), (3, 0));
    assert_eq!((b.value, b.id), ('q', 1));
    assert_eq!((c.value, c.id), (true, 2));
    assert_eq!(ati.issued(), 3);
    assert_eq!(ati.find(&a), Some(0));
    assert_eq!(ati.find(&b), Some(1));
    assert_eq!(ati.find(&c), Some(2));
    assert_eq!(a.unbind(), 3);
}

#[test]
fn sum_is_in_the_class_of_both_operands() {
    let mut ati = AbstractTypeInference::new();
    let a = ati.track(3);
    let b = ati.track(4);
    let unrelated = ati.track(5);
    let sum = a.add(&b, &mut ati);
    assert_eq!(sum.unbind(), 7);
    assert_eq!(sum.id, 3);
    let leader = ati.find(&a);
    assert!(leader.is_some());
    assert_eq!(ati.find(&b), leader);
    assert_eq!(ati.find(&sum), leader);
    assert_eq!(leader, Some(a.id));
    assert_eq!(ati.find(&unrelated), Some(unrelated.id));
}

#[test]
fn arithmetic_computes_with_the_scalars() {
    let mut ati = AbstractTypeInference::new();
    let a = ati.track(20i32);
    let b = ati.track(6i32);
    assert_eq!(a.add(&b, &mut ati).unbind(), 26);
    assert_eq!(a.sub(&b, &mut ati).unbind(), 14);
    assert_eq!(b.sub(&a, &mut ati).unbind(), -14);
    assert_eq!(a.mul(&b, &mut ati).unbind(), 120);
    assert_eq!(a.div(&b, &mut ati).unbind(), 3);
    let x = ati.track(1.5f64);
    let y = ati.track(0.25f64);
    assert_eq!(x.add(&y, &mut ati).unbind(), 1.75);
    assert_eq!(x.div(&y, &mut ati).unbind(), 6.0);
}

#[test]
fn every_arithmetic_operation_is_an_interaction() {
    let mut ati = AbstractTypeInference::new();
    let values: Vec<TaggedValue<u64>> = (1..=8).map(|n| ati.track(n)).collect();
    let r0 = values[0].add(&values[1], &mut ati);
    let r1 = values[3].sub(&values[2], &mut ati);
    let r2 = values[4].mul(&values[5], &mut ati);
    let r3 = values[7].div(&values[6], &mut ati);
    for (k, result) in [r0, r1, r2, r3].iter().enumerate() {
        let leader = ati.find(result);
        assert_eq!(ati.find(&values[2 * k]), leader);
        assert_eq!(ati.find(&values[2 * k + 1]), leader);
    }
    assert_ne!(ati.find(&r0), ati.find(&r1));
    assert_ne!(ati.find(&r1), ati.find(&r2));
    assert_ne!(ati.find(&r2), ati.find(&r3));
    assert_eq!((r0.value, r1.value, r2.value, r3.value), (3, 1, 30, 1));
}

#[test]
fn comparisons_are_interactions_without_a_tag() {
    let mut ati = AbstractTypeInference::new();
    let a = ati.track(1);
    let b = ati.track(2);
    let c = ati.track(2);
    let d = ati.track(9);
    let e = ati.track(9);
    let f = ati.track(0);
    assert!(!a.eq(&b, &mut ati));
    assert_eq!(ati.find(&a), ati.find(&b));
    assert!(b.eq(&c, &mut ati));
    assert_eq!(ati.find(&a), ati.find(&c));
    assert_eq!(c.partial_cmp(&d, &mut ati), Some(Ordering::Less));
    assert_eq!(ati.find(&a), ati.find(&d));
    assert_eq!(e.cmp(&f, &mut ati), Ordering::Greater);
    assert_eq!(ati.find(&e), ati.find(&f));
    assert_ne!(ati.find(&a), ati.find(&e));
    assert_eq!(d.cmp(&e, &mut ati), Ordering::Equal);
    assert_eq!(ati.find(&a), ati.find(&f));
    // No comparison issued a tag.
    assert_eq!(ati.issued(), 6);
}

#[test]
fn incomparable_scalars_have_no_order() {
    let mut ati = AbstractTypeInference::new();
    let a = ati.track(f64::NAN);
    let b = ati.track(1.0);
    assert_eq!(a.partial_cmp(&b, &mut ati), None);
    assert!(!a.eq(&a, &mut ati));
    assert_eq!(ati.find(&a), ati.find(&b));
}

#[test]
fn union_of_a_foreign_tag_changes_nothing() {
    let mut ati = AbstractTypeInference::new();
    let a = ati.track(1);
    let forged = TaggedValue::new(1, 500);
    ati.union_tags(&a, &forged);
    ati.union_tags(&forged, &a);
    assert_eq!(ati.find(&a), Some(a.id));
    assert_eq!(ati.find(&forged), None);
}

#[test]
fn empty_site_reports_an_empty_partition() {
    let mut ati = AbstractTypeInference::new();
    let site = ati.get_site("quiet");
    assert_eq!(ati.update_site(site), Ok(()));
    assert_eq!(ati.report(), "===ATI-ANALYSIS-START===\nquiet\n---\n");
    let site = ati.get_site("quiet");
    assert_eq!(site.report(), "quiet\n");
    assert_eq!(ati.update_site(site), Ok(()));
    assert_eq!(ati.report(), "===ATI-ANALYSIS-START===\nquiet\n---\n");
}

#[test]
fn report_of_a_new_engine_is_the_opening_line() {
    let ati = AbstractTypeInference::new();
    assert_eq!(ati.report(), "===ATI-ANALYSIS-START===\n");
}

#[test]
fn report_has_one_block_for_each_site() {
    let mut ati = AbstractTypeInference::new();
    let a = ati.track(1);
    let b = ati.track(2);
    let c = ati.track(3);
    let mut enter = ati.get_site("f::ENTER");
    enter.bind_param("x", &a);
    enter.bind_param("y", &b);
    enter.bind_param("z", &c);
    ati.update_site(enter).unwrap();
    let sum = a.add(&b, &mut ati);
    let mut exit = ati.get_site("f::EXIT");
    exit.bind_param("x", &a);
    exit.bind_param("y", &b);
    exit.bind_param("z", &c);
    let sum = exit.bind("RET", sum);
    ati.update_site(exit).unwrap();
    assert_eq!(sum.unbind(), 3);
    assert_eq!(
        ati.report(),
        "===ATI-ANALYSIS-START===\n\
         f::ENTER\nx:0\ny:1\nz:2\n---\n\
         f::EXIT\nx:0\ny:0\nz:2\nRET:0\n---\n"
    );
}

#[test]
fn checked_out_sites_are_not_reported() {
    let mut ati = AbstractTypeInference::new();
    let first = ati.get_site("first");
    ati.update_site(first).unwrap();
    let second = ati.get_site("second");
    assert!(ati.is_checked_out("second"));
    assert!(!ati.is_checked_out("first"));
    assert_eq!(ati.report(), "===ATI-ANALYSIS-START===\nfirst\n---\n");
    let first = ati.get_site("first");
    assert!(ati.is_checked_out("first"));
    assert_eq!(ati.report(), "===ATI-ANALYSIS-START===\n");
    ati.update_site(second).unwrap();
    ati.update_site(first).unwrap();
    assert!(!ati.is_checked_out("first"));
    assert!(!ati.is_checked_out("second"));
    assert_eq!(ati.report(), "===ATI-ANALYSIS-START===\nsecond\n---\nfirst\n---\n");
}

#[test]
fn a_site_keeps_what_it_learnt_between_visits() {
    let mut ati = AbstractTypeInference::new();
    let a = ati.track(1);
    let b = ati.track(2);
    let mut site = ati.get_site("s");
    site.bind_param("x", &a);
    ati.update_site(site).unwrap();
    let mut site = ati.get_site("s");
    assert_eq!(site.report(), "s\nx:0\n");
    site.bind_param("y", &b);
    ati.update_site(site).unwrap();
    assert_eq!(ati.report(), "===ATI-ANALYSIS-START===\ns\nx:0\ny:1\n---\n");
}

#[test]
fn unregistered_tag_publishes_nothing() {
    let mut ati = AbstractTypeInference::new();
    let a = ati.track(1);
    let mut site = ati.get_site("s");
    site.bind_param("x", &a);
    ati.update_site(site).unwrap();
    let before = ati.report();

    let mut site = ati.get_site("s");
    site.bind_param("y", &a);
    site.bind_param("bad", &TaggedValue::new(0, 31));
    assert_eq!(ati.update_site(site), Err(UnregisteredTag { tag: 31 }));
    // The site was not checked in.
    assert!(ati.is_checked_out("s"));
    assert_eq!(ati.report(), "===ATI-ANALYSIS-START===\n");
    assert_eq!(before, "===ATI-ANALYSIS-START===\ns\nx:0\n---\n");
    assert_eq!(ati.find(&a), Some(0));
    assert_eq!(ati.issued(), 1);
}

#[test]
fn two_calls_with_unrelated_arguments() {
    // f(x, y) computes x + y and is called twice.
    let mut ati = AbstractTypeInference::new();
    let mut calls = Vec::new();
    for (x, y) in [(1, 2), (10, 20)] {
        let x = ati.track(x);
        let y = ati.track(y);
        let mut enter = ati.get_site("f::ENTER");
        enter.bind_param("x", &x);
        enter.bind_param("y", &y);
        ati.update_site(enter).unwrap();
        let sum = x.add(&y, &mut ati);
        let mut exit = ati.get_site("f::EXIT");
        exit.bind_param("x", &x);
        exit.bind_param("y", &y);
        exit.bind_param("RET", &sum);
        ati.update_site(exit).unwrap();
        calls.push((x, y, sum));
    }
    // Within each call the values have interacted; across calls they have not.
    let (x1, y1, r1) = calls[0];
    let (x2, y2, r2) = calls[1];
    assert_eq!(ati.find(&x1), ati.find(&y1));
    assert_eq!(ati.find(&x1), ati.find(&r1));
    assert_eq!(ati.find(&x2), ati.find(&y2));
    assert_eq!(ati.find(&x2), ati.find(&r2));
    assert_ne!(ati.find(&x1), ati.find(&x2));
    // At the exit all three variables have one abstract type.
    let exit = ati.get_site("f::EXIT");
    assert_eq!(exit.report(), "f::EXIT\nx:0\ny:0\nRET:0\n");
    ati.update_site(exit).unwrap();

    // A constant used with values of both calls bridges the two classes.
    let shared = ati.track(0);
    shared.eq(&x1, &mut ati);
    shared.eq(&x2, &mut ati);
    assert_eq!(ati.find(&x1), ati.find(&x2));
    assert_eq!(ati.find(&r1), ati.find(&y2));
}

#[test]
fn one_variable_bound_to_two_classes_across_visits() {
    let mut ati = AbstractTypeInference::new();
    let a = ati.track(1);
    let b = ati.track(2);
    let mut site = ati.get_site("s");
    site.bind_param("v", &a);
    site.bind_param("a", &a);
    site.bind_param("b", &b);
    ati.update_site(site).unwrap();
    assert_eq!(ati.report(), "===ATI-ANALYSIS-START===\ns\nv:0\na:0\nb:1\n---\n");

    let mut site = ati.get_site("s");
    site.bind_param("v", &b);
    ati.update_site(site).unwrap();
    assert_eq!(ati.report(), "===ATI-ANALYSIS-START===\ns\nv:0\na:0\nb:0\n---\n");
    // Everywhere else the two classes are still apart.
    assert_eq!(ati.find(&a), Some(0));
    assert_eq!(ati.find(&b), Some(1));
    let mut other = ati.get_site("t");
    other.bind_param("a", &a);
    other.bind_param("b", &b);
    ati.update_site(other).unwrap();
    assert_eq!(
        ati.report(),
        "===ATI-ANALYSIS-START===\ns\nv:0\na:0\nb:0\n---\nt\na:0\nb:1\n---\n"
    );
}

/// A run that first tracks `shift` values of no further interest.
fn shifted_run(shift: u32) -> String {
    let mut ati = AbstractTypeInference::new();
    for n in 0..shift {
        ati.track(n);
    }
    let x = ati.track(1);
    let y = ati.track(2);
    let z = ati.track(3);
    let mut site = ati.get_site("f::EXIT");
    let sum = y.add(&z, &mut ati);
    site.bind_param("x", &x);
    site.bind_param("y", &y);
    site.bind_param("z", &z);
    site.bind_param("RET", &sum);
    ati.update_site(site).unwrap();
    ati.report()
}

#[test]
fn repeated_runs_give_the_same_report() {
    assert_eq!(shifted_run(0), shifted_run(0));
    assert_eq!(shifted_run(0), "===ATI-ANALYSIS-START===\nf::EXIT\nx:0\ny:1\nz:1\nRET:1\n---\n");
}

#[test]
fn other_tags_give_the_same_partition() {
    assert_eq!(shifted_run(5), "===ATI-ANALYSIS-START===\nf::EXIT\nx:5\ny:6\nz:6\nRET:6\n---\n");
}

#[test]
fn registry_checkout_and_checkin() {
    let mut sites = Sites::new();
    assert_eq!(sites.report(), "");
    assert!(!sites.is_checked_out("a"));
    let a = sites.extract("a");
    assert_eq!(a.name(), "a");
    assert!(sites.is_checked_out("a"));
    assert!(!sites.is_checked_out("b"));
    sites.stash(a);
    assert!(!sites.is_checked_out("a"));
    let b = sites.extract("b");
    sites.stash(b);
    assert_eq!(sites.report(), "a\n---\nb\n---\n");
    let a = sites.extract("a");
    assert_eq!(sites.report(), "b\n---\n");
    sites.stash(a);
    assert_eq!(sites.report(), "b\n---\na\n---\n");
}

#[test]
fn checkin_replaces_a_site_of_the_same_name() {
    let mut sites = Sites::new();
    let a = sites.extract("a");
    sites.stash(a);
    let b = sites.extract("b");
    sites.stash(b);

    let mut ledger = datir::union_find::UnionFind::new();
    let tag = ledger.make_set();
    let mut other = Site::new("a");
    other.bind_param("x", &TaggedValue::new((), tag));
    other.update(&mut ledger).unwrap();
    sites.stash(other);
    assert_eq!(sites.report(), "a\nx:0\n---\nb\n---\n");
}
