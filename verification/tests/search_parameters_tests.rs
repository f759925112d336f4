use std::time::Duration;

use angelika::piece::Color;
use angelika::search_parameters::SearchParameters;

#[test]
fn infinite_returns_none() {
    let params = SearchParameters {
        infinite: true,
        ..Default::default()
    };
    assert!(params.time_for_move(Color::White).is_none());
}

#[test]
fn no_time_info_returns_none() {
    assert!(
        SearchParameters::default()
            .time_for_move(Color::White)
            .is_none()
    );
}

#[test]
fn movetime_is_used_directly() {
    let params = SearchParameters {
        movetime: Some(5000),
        ..Default::default()
    };
    assert_eq!(
        params.time_for_move(Color::White),
        Some(Duration::from_millis(5000))
    );
}

#[test]
fn time_with_increment_and_movestogo() {
    let params = SearchParameters {
        wtime: Some(30000),
        winc: Some(1000),
        movestogo: Some(10),
        ..Default::default()
    };
    assert_eq!(
        params.time_for_move(Color::White),
        Some(Duration::from_millis(4000))
    );
}

#[test]
fn black_uses_its_own_clock_and_default_moves_to_go() {
    let params = SearchParameters {
        wtime: Some(30000),
        btime: Some(60000),
        binc: Some(500),
        ..Default::default()
    };
    assert_eq!(params.time_for_move_millis(Color::Black), Some(2500));
    assert_eq!(params.time_for_move_millis(Color::White), Some(1000));
}
