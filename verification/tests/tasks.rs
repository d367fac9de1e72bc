use lib::application::{receipt_for, PlaceOrderError, Receipt, RepositoryError as SaveError};
use lib::domain::{InvalidTitle, Order, OrderError, RepositoryError, Task, TaskRepository};
use lib::infrastructure::InMemoryTaskRepository;
use lib::presentation::render_receipt;

#[test]
fn titles_are_trimmed_of_unicode_white_space() {
    let task = Task::new(3, "\u{3000}設計をテストする\u{2003}\n").unwrap();
    assert_eq!(task.title(), "設計をテストする");
    assert_eq!(Task::new(4, "\u{3000}\u{85}\u{a0}"), Err(InvalidTitle));
    assert_eq!(Task::new(5, ""), Err(InvalidTitle));
    let inner = Task::new(6, " a  b ").unwrap();
    assert_eq!(inner.title(), "a  b");
}

#[test]
fn normalizing_a_title_twice_changes_nothing() {
    let once = Task::new(1, "  twice  ").unwrap();
    let again = Task::new(1, once.title()).unwrap();
    assert_eq!(once, again);
}

#[test]
fn a_stored_task_is_found_again() {
    let mut repository = InMemoryTaskRepository::default();
    assert_eq!(repository.find(1), Ok(None));
    let task = Task::new(1, "write tests").unwrap();
    assert_eq!(repository.insert(&task), Ok(()));
    assert_eq!(repository.find(1), Ok(Some(Task::new(1, "write tests").unwrap())));
    assert_eq!(repository.find(2), Ok(None));
}

#[test]
fn an_identifier_is_never_overwritten() {
    let mut repository = InMemoryTaskRepository::default();
    repository.insert(&Task::new(9, "first").unwrap()).unwrap();
    assert_eq!(
        repository.insert(&Task::new(9, "second").unwrap()),
        Err(RepositoryError::DuplicateId(9))
    );
    assert_eq!(repository.find(9).unwrap().unwrap().title(), "first");
    assert_eq!(repository.insert(&Task::new(10, "second").unwrap()), Ok(()));
    assert_eq!(repository.find(10).unwrap().unwrap().title(), "second");
}

#[test]
fn task_errors_read_as_sentences() {
    assert_eq!(InvalidTitle.message(), "task title must not be empty");
    assert_eq!(RepositoryError::DuplicateId(42).message(), "task 42 already exists");
    assert_eq!(RepositoryError::DuplicateId(0).message(), "task 0 already exists");
    assert_eq!(
        RepositoryError::DuplicateId(u64::MAX).message(),
        "task 18446744073709551615 already exists"
    );
    assert_eq!(RepositoryError::Unavailable.message(), "task repository is unavailable");
}

#[test]
fn order_errors_read_as_sentences() {
    assert_eq!(SaveError.message(), "order could not be saved");
    assert_eq!(
        PlaceOrderError::Persistence(SaveError).message(),
        "persistence failed: order could not be saved"
    );
    assert_eq!(
        PlaceOrderError::InvalidOrder(OrderError::EmptyProduct).message(),
        "invalid order: product must not be empty"
    );
    assert_eq!(
        PlaceOrderError::InvalidOrder(OrderError::ZeroQuantity).message(),
        "invalid order: quantity must be positive"
    );
    assert_eq!(
        PlaceOrderError::InvalidOrder(OrderError::TotalOverflow).message(),
        "invalid order: order total exceeds the supported range"
    );
}

#[test]
fn order_totals_are_exact_up_to_the_limit() {
    let order = Order::new("x".to_owned(), 3, 7).unwrap();
    assert_eq!(order.total_yen(), 21);
    assert_eq!(order.quantity(), 3);
    assert_eq!(order.unit_price_yen(), 7);
    let largest = Order::new("x".to_owned(), 1, u64::MAX).unwrap();
    assert_eq!(largest.total_yen(), u64::MAX);
    assert_eq!(Order::new("x".to_owned(), 2, u64::MAX / 2 + 1), Err(OrderError::TotalOverflow));
    assert_eq!(Order::new(" \u{3000}".to_owned(), 0, 1), Err(OrderError::EmptyProduct));
    assert_eq!(Order::new("x".to_owned(), 0, 1), Err(OrderError::ZeroQuantity));
    assert_eq!(Order::new("x".to_owned(), 0, 0), Err(OrderError::ZeroQuantity));
    assert_eq!(Order::new("x".to_owned(), 5, 0).unwrap().total_yen(), 0);
}

#[test]
fn receipts_carry_the_saved_identifier_and_total() {
    let order = Order::new("Tea".to_owned(), 4, 250).unwrap();
    assert_eq!(receipt_for(&order, Ok(77)), Ok(Receipt { order_id: 77, total_yen: 1000 }));
    assert_eq!(receipt_for(&order, Err(SaveError)), Err(PlaceOrderError::Persistence(SaveError)));
    assert_eq!(render_receipt(&Receipt { order_id: 77, total_yen: 1000 }), "order #77: 1000 JPY");
    assert_eq!(render_receipt(&Receipt { order_id: 0, total_yen: 0 }), "order #0: 0 JPY");
}
