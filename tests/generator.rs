use scheduler::span::Span;
use scheduler::time::Time;
use scheduler::option_generator::{Group, OptionGenerator};
use scheduler::option_stream::OptionStream;

fn span(a: &str, b: &str) -> Span {
    Span::new(Time::parse(a).unwrap(), Time::parse(b).unwrap())
}

#[test]
fn generate_test() {
    let sa = Span::new(Time::parse("00:00").unwrap(), Time::parse("01:00").unwrap());
    let sb = Span::new(Time::parse("01:00").unwrap(), Time::parse("02:00").unwrap());
    let sc = Span::new(Time::parse("02:00").unwrap(), Time::parse("03:00").unwrap());
    let mut generator = OptionGenerator::default();
    generator
        .set_mandatory(vec![("0", vec![sa, sc])])
        .set_optional(vec![("1", vec![sa, sb, sc]), ("2", vec![sa, sb])])
        .set_collission_exceptions(vec![(("2", sb), ("1", sb))]);
    assert_eq!(
        generator.generate(),
        vec![
            vec![Some(sa), Some(sb), Some(sb)],
            vec![Some(sa), Some(sb), None],
            vec![Some(sa), Some(sc), Some(sb)],
            vec![Some(sa), Some(sc), None],
            vec![Some(sa), None, Some(sb)],
            vec![Some(sa), None, None],
            vec![Some(sc), Some(sa), Some(sb)],
            vec![Some(sc), Some(sa), None],
            vec![Some(sc), Some(sb), Some(sa)],
            vec![Some(sc), Some(sb), Some(sb)],
            vec![Some(sc), Some(sb), None],
            vec![Some(sc), None, Some(sa)],
            vec![Some(sc), None, Some(sb)],
            vec![Some(sc), None, None],
        ]
    );
}

#[test]
fn generate_without_exceptions() {
    let sa = span("00:00", "01:00");
    let sb = span("01:00", "02:00");
    let sc = span("02:00", "03:00");
    let mut generator = OptionGenerator::new();
    generator
        .set_mandatory(vec![("0", vec![sa, sc])])
        .set_optional(vec![("1", vec![sa, sb, sc]), ("2", vec![sa, sb])]);
    assert_eq!(
        generator.generate(),
        vec![
            vec![Some(sa), Some(sb), None],
            vec![Some(sa), Some(sc), Some(sb)],
            vec![Some(sa), Some(sc), None],
            vec![Some(sa), None, Some(sb)],
            vec![Some(sa), None, None],
            vec![Some(sc), Some(sa), Some(sb)],
            vec![Some(sc), Some(sa), None],
            vec![Some(sc), Some(sb), Some(sa)],
            vec![Some(sc), Some(sb), None],
            vec![Some(sc), None, Some(sa)],
            vec![Some(sc), None, Some(sb)],
            vec![Some(sc), None, None],
        ]
    );
}

#[test]
fn exception_orientation_does_not_matter() {
    let sa = span("00:00", "01:00");
    let sb = span("01:00", "02:00");
    let sc = span("02:00", "03:00");
    let run = |exc: Vec<((&'static str, Span), (&'static str, Span))>| {
        let mut g = OptionGenerator::new();
        g.set_mandatory(vec![("0", vec![sa, sc])])
            .set_optional(vec![("1", vec![sa, sb, sc]), ("2", vec![sa, sb])])
            .set_collission_exceptions(exc);
        g.generate()
    };
    assert_eq!(run(vec![(("2", sb), ("1", sb))]), run(vec![(("1", sb), ("2", sb))]));
}

#[test]
fn positions_name_the_chosen_items() {
    let sa = span("00:00", "01:00");
    let sb = span("00:30", "02:00");
    let mut g = OptionGenerator::new();
    g.set_mandatory(vec![("m", vec![sa])]).set_optional(vec![("o", vec![sb, sa])]);
    assert_eq!(g.positions(), vec![vec![Some(0), None]]);
    let mut g = OptionGenerator::new();
    g.set_mandatory(vec![("m", vec![sa])])
        .set_optional(vec![("o", vec![sb, sa])])
        .set_collission_exceptions(vec![(("m", sa), ("o", sa))]);
    assert_eq!(g.positions(), vec![vec![Some(0), Some(1)], vec![Some(0), None]]);
}

#[test]
fn empty_mandatory_group_yields_nothing() {
    let sa = span("00:00", "01:00");
    let mut g = OptionGenerator::new();
    g.set_mandatory(vec![("m", vec![])]).set_optional(vec![("o", vec![sa])]);
    assert!(g.generate().is_empty());
    let g: OptionGenerator<&str, Span> = OptionGenerator::new();
    assert_eq!(g.generate(), vec![Vec::<Option<Span>>::new()]);
}

#[test]
fn enumeration_is_deterministic() {
    let sa = span("08:00", "10:00");
    let sb = span("09:00", "11:00");
    let sc = span("10:00", "12:00");
    let make = || {
        let mut g = OptionGenerator::new();
        g.set_mandatory(vec![("x", vec![sa, sb])]).set_optional(vec![("y", vec![sc, sb]), ("z", vec![sa, sc])]);
        g.generate()
    };
    assert_eq!(make(), make());
}

#[test]
fn group_constructors() {
    let g = Group::mandatory(vec![1, 2]);
    assert!(g.mandatory);
    assert_eq!(g.items, vec![1, 2]);
    let g = Group::optional(vec![3]);
    assert!(!g.mandatory);
    assert_eq!(g.items, vec![3]);
}

fn scenario(with_exception: bool) -> OptionGenerator<&'static str, Span> {
    let sa = span("00:00", "01:00");
    let sb = span("01:00", "02:00");
    let sc = span("02:00", "03:00");
    let mut g = OptionGenerator::new();
    g.set_mandatory(vec![("0", vec![sa, sc])])
        .set_optional(vec![("1", vec![sa, sb, sc]), ("2", vec![sa, sb])]);
    if with_exception {
        g.set_collission_exceptions(vec![(("2", sb), ("1", sb))]);
    }
    g
}

#[test]
fn stream_yields_the_enumeration_in_order() {
    for with_exception in [false, true] {
        let mut stream = OptionStream::new(scenario(with_exception));
        let mut pulled = vec![];
        while let Some(option) = stream.next() {
            pulled.push(option);
        }
        assert_eq!(pulled, scenario(with_exception).generate());
        assert_eq!(pulled.len(), if with_exception { 14 } else { 12 });
        assert!(stream.next().is_none());
    }
}

#[test]
fn stream_of_nothing() {
    let sa = span("00:00", "01:00");
    let mut g = OptionGenerator::new();
    g.set_mandatory(vec![("m", vec![sa]), ("n", vec![sa])]);
    let mut stream = OptionStream::new(g);
    assert!(stream.next().is_none());
    let g: OptionGenerator<&str, Span> = OptionGenerator::new();
    let mut stream = OptionStream::new(g);
    assert_eq!(stream.next(), Some(vec![]));
    assert!(stream.next().is_none());
}
