//! Business rules and persistence ports. No knowledge of outer-layer
//! implementations.

use vstd::prelude::*;
use crate::text::{
    chars_of, trim_chars, trimmed, trim_start, trim_end, is_white_space, string_of, push_decimal,
    push_text, decimal,
};

verus! {

// ---------------------------------------------------------------------------
// Titles
// ---------------------------------------------------------------------------

/// Text with no whitespace at either end.
pub open spec fn is_trimmed(s: Seq<char>) -> bool {
    s.len() == 0 || (!is_white_space(s[0]) && !is_white_space(s.last()))
}

proof fn lemma_trim_start_shape(s: Seq<char>)
    ensures
        trim_start(s).len() == 0 || !is_white_space(trim_start(s)[0]),
    decreases s.len(),
{
    if s.len() > 0 && is_white_space(s[0]) {
        lemma_trim_start_shape(s.drop_first());
    }
}

proof fn lemma_trim_end_shape(s: Seq<char>)
    ensures
        trim_end(s).len() <= s.len(),
        trim_end(s) == s.take(trim_end(s).len() as int),
        trim_end(s).len() == 0 || !is_white_space(trim_end(s).last()),
    decreases s.len(),
{
    if s.len() > 0 && is_white_space(s.last()) {
        lemma_trim_end_shape(s.drop_last());
        assert(s.drop_last().take(trim_end(s).len() as int) == s.take(trim_end(s).len() as int));
    } else {
        assert(s.take(s.len() as int) == s);
    }
}

/// Trimming gives text with no whitespace at either end.
pub proof fn lemma_trimmed_is_trimmed(s: Seq<char>)
    ensures
        is_trimmed(trimmed(s)),
{
    lemma_trim_start_shape(s);
    lemma_trim_end_shape(trim_start(s));
    let t = trimmed(s);
    if t.len() > 0 {
        assert(t[0] == trim_start(s)[0]);
    }
}

/// Trimming text that is already trimmed changes nothing.
pub proof fn lemma_trim_keeps_trimmed(s: Seq<char>)
    requires
        is_trimmed(s),
    ensures
        trimmed(s) == s,
{
    assert(trim_start(s) == s);
    assert(trim_end(s) == s);
}

/// Normalizing a title twice is normalizing it once.
pub proof fn lemma_title_normalization_idempotent(s: Seq<char>)
    ensures
        trimmed(trimmed(s)) == trimmed(s),
{
    lemma_trimmed_is_trimmed(s);
    lemma_trim_keeps_trimmed(trimmed(s));
}

// ---------------------------------------------------------------------------
// Tasks
// ---------------------------------------------------------------------------

/// A task with an identifier and a non-blank title.
#[derive(Debug, PartialEq, Eq)]
pub struct Task {
    id: u64,
    title: String,
}

/// The contents of a task.
pub struct TaskView {
    pub id: u64,
    pub title: Seq<char>,
}

impl View for Task {
    type V = TaskView;

    closed spec fn view(&self) -> TaskView {
        TaskView { id: self.id, title: self.title@ }
    }
}

/// The task that a title gives, if it is not blank: the title without
/// whitespace at either end.
pub open spec fn task_spec(id: u64, title: Seq<char>) -> Option<TaskView> {
    if trimmed(title).len() == 0 {
        None
    } else {
        Some(TaskView { id, title: trimmed(title) })
    }
}

impl Task {
    #[verifier::type_invariant]
    spec fn title_ok(&self) -> bool {
        self.title@.len() > 0 && is_trimmed(self.title@)
    }

    /// A task titled by `title` without surrounding whitespace; blank titles
    /// are refused.
    pub fn new(id: u64, title: &str) -> (r: Result<Task, InvalidTitle>)
        ensures
            match (r, task_spec(id, title@)) {
                (Ok(t), Some(v)) => t@ == v,
                (Err(_), None) => true,
                _ => false,
            },
    {
        let chars = chars_of(title);
        let t = trim_chars(&chars);
        if t.len() == 0 {
            return Err(InvalidTitle);
        }
        proof {
            lemma_trimmed_is_trimmed(title@);
        }
        Ok(Task { id, title: string_of(&t) })
    }

    /// The identifier.
    pub fn id(&self) -> (r: u64)
        ensures
            r == self@.id,
    {
        self.id
    }

    /// The title.
    pub fn title(&self) -> (r: &str)
        ensures
            r@ == self@.title,
            r@.len() > 0,
            is_trimmed(r@),
    {
        proof {
            use_type_invariant(self);
        }
        self.title.as_str()
    }
}

impl Clone for Task {
    fn clone(&self) -> (r: Self)
        ensures
            r@ == self@,
    {
        proof {
            use_type_invariant(self);
        }
        Task { id: self.id, title: self.title.clone() }
    }
}

/// A blank task title.
#[derive(Debug, Clone, Copy, PartialEq, Eq)]
pub struct InvalidTitle;

impl InvalidTitle {
    /// The message that describes the error.
    pub fn message(&self) -> (r: String)
        ensures
            r@ == "task title must not be empty"@,
    {
        string_of(&chars_of("task title must not be empty"))
    }
}

/// Why a task repository failed.
#[derive(Debug, Clone, Copy, PartialEq, Eq)]
pub enum RepositoryError {
    /// A task with this identifier is already stored.
    DuplicateId(u64),
    /// The repository cannot be reached.
    Unavailable,
}

impl RepositoryError {
    /// The message that describes the error.
    pub fn message(&self) -> (r: String)
        ensures
            r@ == match self {
                RepositoryError::DuplicateId(id) => "task "@ + decimal(*id as nat)
                    + " already exists"@,
                RepositoryError::Unavailable => "task repository is unavailable"@,
            },
    {
        match self {
            RepositoryError::DuplicateId(id) => {
                let mut out = chars_of("task ");
                push_decimal(&mut out, *id);
                push_text(&mut out, " already exists");
                string_of(&out)
            },
            RepositoryError::Unavailable => string_of(&chars_of("task repository is unavailable")),
        }
    }
}

/// Storage for tasks. Implementations belong in infrastructure; callers
/// depend only on this port.
pub trait TaskRepository {
    /// Inserts a new task without overwriting an existing identifier.
    fn insert(&mut self, task: &Task) -> Result<(), RepositoryError>;

    /// The task with this identifier, if one is stored.
    fn find(&self, id: u64) -> Result<Option<Task>, RepositoryError>;
}

// ---------------------------------------------------------------------------
// Orders
// ---------------------------------------------------------------------------

/// An order of a positive quantity of a named product, whose total price
/// fits in a `u64`.
#[derive(Debug, PartialEq, Eq)]
pub struct Order {
    product: String,
    quantity: u32,
    unit_price_yen: u64,
}

/// The contents of an order.
pub struct OrderView {
    pub product: Seq<char>,
    pub quantity: u32,
    pub unit_price_yen: u64,
}

impl View for Order {
    type V = OrderView;

    closed spec fn view(&self) -> OrderView {
        OrderView {
            product: self.product@,
            quantity: self.quantity,
            unit_price_yen: self.unit_price_yen,
        }
    }
}

/// Why an order is refused.
#[derive(Debug, Clone, Copy, PartialEq, Eq)]
pub enum OrderError {
    /// The product name is blank.
    EmptyProduct,
    /// The quantity is zero.
    ZeroQuantity,
    /// The total price does not fit in a `u64`.
    TotalOverflow,
}

/// The order that the inputs give, or the first reason to refuse it: a
/// blank product, then a zero quantity, then a total beyond `u64::MAX`. The
/// product name loses its surrounding whitespace.
pub open spec fn order_spec(product: Seq<char>, quantity: u32, unit_price_yen: u64) -> Result<
    OrderView,
    OrderError,
> {
    if trimmed(product).len() == 0 {
        Err(OrderError::EmptyProduct)
    } else if quantity == 0 {
        Err(OrderError::ZeroQuantity)
    } else if quantity * unit_price_yen > u64::MAX {
        Err(OrderError::TotalOverflow)
    } else {
        Ok(OrderView { product: trimmed(product), quantity, unit_price_yen })
    }
}

/// The total price of an order.
pub open spec fn order_total(o: OrderView) -> int {
    o.quantity * o.unit_price_yen
}

impl Order {
    #[verifier::type_invariant]
    spec fn order_ok(&self) -> bool {
        &&& self.product@.len() > 0
        &&& is_trimmed(self.product@)
        &&& self.quantity > 0
        &&& self.quantity * self.unit_price_yen <= u64::MAX
    }

    /// An order, or the reason to refuse it (see `order_spec`).
    pub fn new(product: String, quantity: u32, unit_price_yen: u64) -> (r: Result<Order, OrderError>)
        ensures
            match (r, order_spec(product@, quantity, unit_price_yen)) {
                (Ok(o), Ok(v)) => o@ == v,
                (Err(e), Err(f)) => e == f,
                _ => false,
            },
    {
        let chars = chars_of(product.as_str());
        let name = trim_chars(&chars);
        if name.len() == 0 {
            return Err(OrderError::EmptyProduct);
        }
        if quantity == 0 {
            return Err(OrderError::ZeroQuantity);
        }
        match (quantity as u64).checked_mul(unit_price_yen) {
            None => Err(OrderError::TotalOverflow),
            Some(_) => {
                proof {
                    lemma_trimmed_is_trimmed(product@);
                }
                Ok(Order { product: string_of(&name), quantity, unit_price_yen })
            },
        }
    }

    /// The product name.
    pub fn product(&self) -> (r: &str)
        ensures
            r@ == self@.product,
    {
        self.product.as_str()
    }

    /// The quantity.
    pub fn quantity(&self) -> (r: u32)
        ensures
            r == self@.quantity,
    {
        self.quantity
    }

    /// The price of one unit.
    pub fn unit_price_yen(&self) -> (r: u64)
        ensures
            r == self@.unit_price_yen,
    {
        self.unit_price_yen
    }

    /// The total price: quantity times unit price.
    pub fn total_yen(&self) -> (r: u64)
        ensures
            r == order_total(self@),
    {
        proof {
            use_type_invariant(self);
        }
        self.quantity as u64 * self.unit_price_yen
    }
}

impl OrderError {
    /// The message that describes the error.
    pub fn message(&self) -> (r: String)
        ensures
            r@ == match self {
                OrderError::EmptyProduct => "product must not be empty"@,
                OrderError::ZeroQuantity => "quantity must be positive"@,
                OrderError::TotalOverflow => "order total exceeds the supported range"@,
            },
    {
        match self {
            OrderError::EmptyProduct => string_of(&chars_of("product must not be empty")),
            OrderError::ZeroQuantity => string_of(&chars_of("quantity must be positive")),
            OrderError::TotalOverflow => string_of(
                &chars_of("order total exceeds the supported range"),
            ),
        }
    }
}

} // verus!
