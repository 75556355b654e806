use task_explorer::ui::{click_sort_column, push_rolling, select_next, select_previous, SortKey, HISTORY_LEN};

#[test]
fn clicking_a_column() {
    assert_eq!(click_sort_column(SortKey::Cpu, false, SortKey::Cpu), (SortKey::Cpu, true));
    assert_eq!(click_sort_column(SortKey::Cpu, true, SortKey::Cpu), (SortKey::Cpu, false));
    assert_eq!(click_sort_column(SortKey::Cpu, true, SortKey::Name), (SortKey::Name, false));
}

#[test]
fn moving_the_selection_down() {
    let pids = vec![5, 9, 2];
    assert_eq!(select_next(&pids, None), Some(5));
    assert_eq!(select_next(&pids, Some(5)), Some(9));
    assert_eq!(select_next(&pids, Some(2)), Some(2));
    assert_eq!(select_next(&pids, Some(77)), Some(5));
    assert_eq!(select_next(&vec![], Some(77)), Some(77));
    assert_eq!(select_next(&vec![], None), None);
}

#[test]
fn moving_the_selection_up() {
    let pids = vec![5, 9, 2];
    assert_eq!(select_previous(&pids, None), Some(2));
    assert_eq!(select_previous(&pids, Some(2)), Some(9));
    assert_eq!(select_previous(&pids, Some(5)), Some(5));
    assert_eq!(select_previous(&pids, Some(77)), Some(2));
    assert_eq!(select_previous(&vec![], Some(3)), Some(3));
}

#[test]
fn chart_history_rolls() {
    let mut h: Vec<f32> = vec![0.0; HISTORY_LEN];
    push_rolling(&mut h, 42.0, HISTORY_LEN);
    assert_eq!(h.len(), HISTORY_LEN);
    assert_eq!(h[HISTORY_LEN - 1], 42.0);
    let mut short: Vec<u8> = vec![1, 2];
    push_rolling(&mut short, 3, 5);
    assert_eq!(short, vec![1, 2, 3]);
    let mut full: Vec<u8> = vec![1, 2, 3];
    push_rolling(&mut full, 4, 3);
    assert_eq!(full, vec![2, 3, 4]);
}

#[test]
fn chart_history_stays_full() {
    let mut h = task_explorer::ui::ChartHistory::filled(0.0f32);
    assert_eq!(h.len(), task_explorer::ui::HISTORY_LEN);
    for k in 0..100 {
        h.push(k as f32);
        assert_eq!(h.len(), 60);
    }
    assert_eq!(h.samples()[0], 40.0);
    assert_eq!(h.samples()[59], 99.0);
}
