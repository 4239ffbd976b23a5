use recompose_alignment::new_canonical;
use recompose_alignment::new_compatible;
use recompose_alignment::Oracle;

const ACUTE: char = '\u{301}';
const GRAVE: char = '\u{300}';
const E_ACUTE: char = '\u{e9}';

fn latin_oracle() -> Oracle {
    Oracle::new(
        vec![(ACUTE, 230u8), (GRAVE, 230u8)],
        vec![('e', ACUTE, E_ACUTE), ('a', ACUTE, '\u{e1}'), ('e', GRAVE, '\u{e8}')],
    )
}

#[test]
fn empty_input_yields_empty() {
    let mut eng = new_canonical(latin_oracle(), vec![]);
    assert_eq!(eng.next(), None);
    let eng2 = new_canonical(latin_oracle(), vec![]);
    assert_eq!(eng2.collect_remaining(), vec![]);
}

#[test]
fn concrete_composition() {
    let eng = new_canonical(latin_oracle(), vec![('e', 0), (ACUTE, 0)]);
    assert_eq!(eng.collect_remaining(), vec![(E_ACUTE, -1)]);
}

#[test]
fn composition_adds_deltas_minus_one() {
    let eng = new_canonical(latin_oracle(), vec![('e', 1), (ACUTE, 2)]);
    assert_eq!(eng.collect_remaining(), vec![(E_ACUTE, 2)]);
}

#[test]
fn round_trip_of_hand_decomposition() {
    // the canonical decomposition of 'é' with its alignment delta, as the
    // upstream producer would emit it; recomposition restores the NFC form
    // with a net delta of zero
    let eng = new_canonical(latin_oracle(), vec![('e', 0), (ACUTE, 1)]);
    assert_eq!(eng.collect_remaining(), vec![(E_ACUTE, 0)]);
}

#[test]
fn blocked_mark_does_not_compose() {
    // class(GRAVE) >= class(ACUTE) and ('a', ACUTE) would compose, but the
    // intervening grave blocks it; original relative order is preserved
    let eng = new_canonical(latin_oracle(), vec![('a', 0), (GRAVE, 0), (ACUTE, 0)]);
    assert_eq!(eng.collect_remaining(), vec![('a', 0), (GRAVE, 0), (ACUTE, 0)]);
}

#[test]
fn blocked_starter_purges_then_scan_resumes() {
    // the grave cannot compose into 'a' and is buffered; the starter 'e'
    // is blocked, so 'a' is emitted, the buffer purged, and the scan then
    // merges the acute into 'e'
    let input = vec![('a', 0), (GRAVE, 0), ('e', 0), (ACUTE, 0)];
    let eng = new_canonical(latin_oracle(), input);
    assert_eq!(
        eng.collect_remaining(),
        vec![('a', 0), (GRAVE, 0), ('\u{e9}', -1)]
    );
}

#[test]
fn exhaustion_is_permanent() {
    let mut eng = new_canonical(latin_oracle(), vec![('e', 0), (ACUTE, 0)]);
    assert_eq!(eng.next(), Some((E_ACUTE, -1)));
    assert_eq!(eng.next(), None);
    for _ in 0..5 {
        assert_eq!(eng.next(), None);
    }
}

#[test]
fn idempotent_on_fully_composed_stream() {
    // nothing here composes with anything earlier: the stream is already
    // in canonical form and comes back unchanged, deltas included
    let input = vec![('a', 0), ('b', -2), ('x', 5)];
    let eng = new_canonical(latin_oracle(), input.clone());
    assert_eq!(eng.collect_remaining(), input);
}

#[test]
fn alignment_sums_match_length_change() {
    let input = vec![('e', 1), (ACUTE, 2), ('a', 0), (ACUTE, 3), ('x', 4)];
    let eng = new_canonical(latin_oracle(), input.clone());
    let out = eng.collect_remaining();
    assert_eq!(out, vec![(E_ACUTE, 2), ('\u{e1}', 2), ('x', 4)]);
    let in_sum: isize = input.iter().map(|p| p.1).sum();
    let out_sum: isize = out.iter().map(|p| p.1).sum();
    assert_eq!(
        out_sum,
        in_sum + out.len() as isize - input.len() as isize
    );
}

#[test]
fn mark_before_first_starter_passes_through() {
    let eng = new_canonical(latin_oracle(), vec![(ACUTE, 0), ('a', 0)]);
    assert_eq!(eng.collect_remaining(), vec![(ACUTE, 0), ('a', 0)]);
}

#[test]
fn long_mark_run_spills_past_inline_buffer() {
    // six buffered marks with strictly rising classes, none of which
    // composes: more than the inline capacity, exercising dynamic growth
    let marks = ['\u{316}', '\u{31b}', '\u{321}', '\u{327}', '\u{334}', '\u{345}'];
    let mut classes = Vec::new();
    let mut input = vec![('q', 0isize)];
    let mut expected = vec![('q', 0isize)];
    for (i, m) in marks.iter().enumerate() {
        classes.push((*m, (i + 1) as u8));
        input.push((*m, i as isize));
        expected.push((*m, i as isize));
    }
    let oracle = Oracle::new(classes, vec![]);
    let eng = new_canonical(oracle, input);
    assert_eq!(eng.collect_remaining(), expected);
}

#[test]
fn compatible_mode_runs_the_same_engine() {
    let input = vec![('e', 0), (ACUTE, 0), ('a', 0), (GRAVE, 0)];
    let canonical = new_canonical(latin_oracle(), input.clone());
    let compatible = new_compatible(latin_oracle(), input);
    assert_eq!(canonical.collect_remaining(), compatible.collect_remaining());
}

#[test]
fn into_text_materializes_characters_only() {
    let input = vec![('a', 0), (GRAVE, 0), ('e', 0), (ACUTE, 0)];
    let eng = new_canonical(latin_oracle(), input);
    assert_eq!(eng.into_text(), "a\u{300}\u{e9}");
}

#[test]
fn oracle_lookups() {
    let oracle = latin_oracle();
    assert_eq!(oracle.canonical_combining_class(ACUTE), 230);
    assert_eq!(oracle.canonical_combining_class('a'), 0);
    assert_eq!(oracle.compose('e', ACUTE), Some(E_ACUTE));
    assert_eq!(oracle.compose('q', ACUTE), None);
}

#[test]
fn consecutive_starters_pass_through() {
    let eng = new_canonical(latin_oracle(), vec![('a', 1), ('b', 2), ('c', 3)]);
    assert_eq!(
        eng.collect_remaining(),
        vec![('a', 1), ('b', 2), ('c', 3)]
    );
}

#[test]
fn mark_with_higher_class_can_skip_blocked_mark() {
    // the buffered mark has a lower class than the incoming acute, so the
    // acute may still reach the composee and merge into it
    let oracle = Oracle::new(
        vec![(ACUTE, 230u8), ('\u{316}', 220u8)],
        vec![('e', ACUTE, E_ACUTE)],
    );
    let eng = new_canonical(oracle, vec![('e', 0), ('\u{316}', 0), (ACUTE, 0)]);
    assert_eq!(eng.collect_remaining(), vec![(E_ACUTE, -1), ('\u{316}', 0)]);
}
