use renaissance_backtest::model::{Order, OrderError, OrderRequest, OrderStatus, Side};

fn create_order(status: OrderStatus) -> Order {
    Order {
        id: 1,
        symbol: String::from("BTCUSDT"),
        side: Side::Buy,
        price: 100_000,
        quantity: 1,
        status,
    }
}

#[test]
fn new_order_can_be_cancelled() {
    let mut order = create_order(OrderStatus::New);

    let result = order.cancel();

    assert!(result.is_ok());
    assert!(matches!(order.status, OrderStatus::Cancelled));
}

#[test]
fn filled_order_cannot_be_cancelled() {
    let mut order = create_order(OrderStatus::New);

    order.fill();
    let result = order.cancel();

    assert!(result.is_err());
    assert!(matches!(result, Err(OrderError::Filled)));
}

#[test]
fn order_request_can_be_converted_into_order() {
    let request = OrderRequest {
        symbol: String::from("BTCUSDT"),
        side: Side::Buy,
        price: 100_000,
        quantity: 1,
    };

    let order = request.into_order(1);

    assert_eq!(order.id, 1);
    assert_eq!(order.symbol, "BTCUSDT");
    assert_eq!(order.side, Side::Buy);
    assert_eq!(order.price, 100_000);
    assert_eq!(order.quantity, 1);
    assert_eq!(order.status, OrderStatus::New);
}

#[test]
fn cancelled_order_cannot_be_cancelled_again() {
    let mut order = create_order(OrderStatus::New);

    assert!(order.cancel().is_ok());
    let second = order.cancel();

    assert_eq!(second, Err(OrderError::Cancelled));
    assert_eq!(order.status, OrderStatus::Cancelled);
}

#[test]
fn rejected_order_cannot_be_cancelled() {
    let mut order = create_order(OrderStatus::Rejected);

    assert_eq!(order.cancel(), Err(OrderError::Rejected));
    assert_eq!(order.status, OrderStatus::Rejected);
}

#[test]
fn partially_filled_order_can_be_cancelled() {
    let mut order = create_order(OrderStatus::PartiallyFilled);

    assert_eq!(order.cancel(), Ok(()));
    assert_eq!(order.status, OrderStatus::Cancelled);
}

#[test]
fn cancel_error_names_each_final_status() {
    assert_eq!(OrderStatus::New.cancel_error(), None);
    assert_eq!(OrderStatus::PartiallyFilled.cancel_error(), None);
    assert_eq!(OrderStatus::Filled.cancel_error(), Some(OrderError::Filled));
    assert_eq!(OrderStatus::Cancelled.cancel_error(), Some(OrderError::Cancelled));
    assert_eq!(OrderStatus::Rejected.cancel_error(), Some(OrderError::Rejected));
}
