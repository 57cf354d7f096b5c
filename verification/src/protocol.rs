//! Protocol-level data: argument kinds, argument values, messages and
//! interface descriptors.

use smallvec::SmallVec;
use vstd::prelude::*;

verus! {

/// Number of arguments a message stores without a heap allocation.
pub const INLINE_ARGS: usize = 4;

/// First numeric id of the range in which the server creates objects.
///
/// Ids `1 ..= SERVER_ID_LIMIT - 1` belong to the client, ids
/// `SERVER_ID_LIMIT ..= u32::MAX` to the server, and `0` stands for "no object".
pub const SERVER_ID_LIMIT: u32 = 0xFF00_0000;

/// Whether an object argument may be the null id.
#[derive(Clone, Copy, Debug, PartialEq, Eq, Structural)]
pub enum AllowNull {
    Yes,
    No,
}

/// The kind of one argument in a message signature.
#[derive(Clone, Copy, Debug, PartialEq, Eq, Structural)]
pub enum ArgumentType {
    /// Signed 32-bit integer.
    Int,
    /// Unsigned 32-bit integer.
    Uint,
    /// Signed fixed-point number with 8 fractional bits, carried as its raw 32 bits.
    Fixed,
    /// Byte string.
    Str,
    /// Reference to an existing object.
    Object(AllowNull),
    /// Id of an object that the message creates.
    NewId,
    /// Array of bytes.
    Array,
    /// File descriptor, carried beside the bytes of the message.
    Fd,
}

/// One argument value of a message.
#[derive(Clone, Debug, PartialEq, Eq)]
pub enum Argument {
    Int(i32),
    Uint(u32),
    Fixed(i32),
    Str(Vec<u8>),
    Object(u32),
    NewId(u32),
    Array(Vec<u8>),
    Fd(i32),
}

/// Mathematical value of an [`Argument`].
pub enum ArgumentView {
    Int(i32),
    Uint(u32),
    Fixed(i32),
    Str(Seq<u8>),
    Object(u32),
    NewId(u32),
    Array(Seq<u8>),
    Fd(i32),
}

impl View for Argument {
    type V = ArgumentView;

    open spec fn view(&self) -> ArgumentView {
        match *self {
            Argument::Int(v) => ArgumentView::Int(v),
            Argument::Uint(v) => ArgumentView::Uint(v),
            Argument::Fixed(v) => ArgumentView::Fixed(v),
            Argument::Str(s) => ArgumentView::Str(s@),
            Argument::Object(id) => ArgumentView::Object(id),
            Argument::NewId(id) => ArgumentView::NewId(id),
            Argument::Array(a) => ArgumentView::Array(a@),
            Argument::Fd(fd) => ArgumentView::Fd(fd),
        }
    }
}

impl ArgumentView {
    /// The kind of this argument; an object reference reports itself as
    /// non-nullable exactly when it is not null.
    pub open spec fn fits(self, ty: ArgumentType) -> bool {
        match (self, ty) {
            (ArgumentView::Int(_), ArgumentType::Int) => true,
            (ArgumentView::Uint(_), ArgumentType::Uint) => true,
            (ArgumentView::Fixed(_), ArgumentType::Fixed) => true,
            (ArgumentView::Str(_), ArgumentType::Str) => true,
            (ArgumentView::Object(id), ArgumentType::Object(allow)) => id != 0 || allow
                == AllowNull::Yes,
            (ArgumentView::NewId(_), ArgumentType::NewId) => true,
            (ArgumentView::Array(_), ArgumentType::Array) => true,
            (ArgumentView::Fd(_), ArgumentType::Fd) => true,
            _ => false,
        }
    }
}

impl Argument {
    /// Tells whether this value may stand where a signature asks for `ty`:
    /// the kinds agree, and an object reference is null only where the
    /// signature allows it.
    pub fn fits(&self, ty: ArgumentType) -> (r: bool)
        ensures
            r == self@.fits(ty),
    {
        match (self, ty) {
            (Argument::Int(_), ArgumentType::Int) => true,
            (Argument::Uint(_), ArgumentType::Uint) => true,
            (Argument::Fixed(_), ArgumentType::Fixed) => true,
            (Argument::Str(_), ArgumentType::Str) => true,
            (Argument::Object(id), ArgumentType::Object(allow)) => *id != 0 || allow
                == AllowNull::Yes,
            (Argument::NewId(_), ArgumentType::NewId) => true,
            (Argument::Array(_), ArgumentType::Array) => true,
            (Argument::Fd(_), ArgumentType::Fd) => true,
            _ => false,
        }
    }
}

/// The argument list of a message: a `SmallVec` that keeps up to
/// [`INLINE_ARGS`] arguments inline.
#[verifier::external_body]
#[derive(Debug)]
pub struct ArgList {
    inner: SmallVec<[Argument; INLINE_ARGS]>,
}

/// The arguments that an [`ArgList`] holds, first to last.
pub uninterp spec fn arg_list_items(list: ArgList) -> Seq<Argument>;

/// `SmallVec::new`: the vector it returns is empty.
#[verifier::external_body]
fn smallvec_new() -> (list: ArgList)
    ensures
        arg_list_items(list) == Seq::<Argument>::empty(),
{
    ArgList { inner: SmallVec::new() }
}

/// `SmallVec::push`: appends the value behind the items already held, which
/// stay as they are.
#[verifier::external_body]
fn smallvec_push(list: &mut ArgList, arg: Argument)
    ensures
        arg_list_items(*final(list)) == arg_list_items(*old(list)).push(arg),
{
    list.inner.push(arg)
}

/// `SmallVec::as_slice`: the slice holds the vector's items in order.
#[verifier::external_body]
fn smallvec_as_slice(list: &ArgList) -> (items: &[Argument])
    ensures
        items@ == arg_list_items(*list),
{
    list.inner.as_slice()
}

/// The mathematical values of a run of arguments.
pub open spec fn arg_views(args: Seq<Argument>) -> Seq<ArgumentView> {
    args.map_values(|a: Argument| a@)
}

impl View for ArgList {
    type V = Seq<ArgumentView>;

    open spec fn view(&self) -> Seq<ArgumentView> {
        arg_views(arg_list_items(*self))
    }
}

impl ArgList {
    /// The arguments held, first to last.
    pub open spec fn items(self) -> Seq<Argument> {
        arg_list_items(self)
    }

    /// An empty argument list.
    pub fn new() -> (list: ArgList)
        ensures
            list.items() == Seq::<Argument>::empty(),
            list@ == Seq::<ArgumentView>::empty(),
    {
        let list = smallvec_new();
        assert(list@ =~= Seq::<ArgumentView>::empty());
        list
    }

    /// Appends `arg` behind the arguments already held.
    pub fn push(&mut self, arg: Argument)
        ensures
            final(self).items() == old(self).items().push(arg),
            final(self)@ == old(self)@.push(arg@),
    {
        smallvec_push(self, arg);
        assert(self@ =~= old(self)@.push(arg@));
    }

    /// The arguments as a slice.
    pub fn as_slice(&self) -> (items: &[Argument])
        ensures
            items@ == self.items(),
    {
        smallvec_as_slice(self)
    }

    /// Number of arguments held.
    pub fn len(&self) -> (n: usize)
        ensures
            n == self.items().len(),
            n == self@.len(),
    {
        smallvec_as_slice(self).len()
    }

    /// Collects the arguments of `args`, in order.
    pub fn from_vec(args: Vec<Argument>) -> (list: ArgList)
        ensures
            list.items() == args@,
    {
        let mut list = ArgList::new();
        let mut args = args;
        let ghost all = args@;
        let mut rest: Vec<Argument> = Vec::new();
        // Reverse once, so that the arguments can be popped in their order.
        while args.len() > 0
            invariant
                rest@.len() + args@.len() == all.len(),
                forall|i: int| 0 <= i < args@.len() ==> args@[i] == all[i],
                forall|i: int| 0 <= i < rest@.len() ==> rest@[i] == all[all.len() - 1 - i],
            decreases args@.len(),
        {
            let a = args.pop().unwrap();
            rest.push(a);
        }
        while rest.len() > 0
            invariant
                list.items().len() + rest@.len() == all.len(),
                forall|i: int| 0 <= i < list.items().len() ==> list.items()[i] == all[i],
                forall|i: int| 0 <= i < rest@.len() ==> rest@[i] == all[all.len() - 1 - i],
            decreases rest@.len(),
        {
            let a = rest.pop().unwrap();
            list.push(a);
        }
        assert(list.items() =~= all);
        list
    }
}

/// A message: the object it is addressed to or comes from, the opcode within
/// that object's interface, and the arguments.
#[derive(Debug)]
pub struct Message {
    pub sender_id: u32,
    pub opcode: u16,
    pub args: ArgList,
}

/// Mathematical value of a [`Message`].
pub struct MessageView {
    pub sender_id: u32,
    pub opcode: u16,
    pub args: Seq<ArgumentView>,
}

impl View for Message {
    type V = MessageView;

    open spec fn view(&self) -> MessageView {
        MessageView { sender_id: self.sender_id, opcode: self.opcode, args: self.args@ }
    }
}

/// Description of one request or event of an interface.
#[derive(Debug)]
pub struct MessageDesc {
    /// Name of the message.
    pub name: &'static str,
    /// Kinds of its arguments, in order.
    pub signature: &'static [ArgumentType],
    /// Interface version in which the message appeared.
    pub since: u32,
    /// Whether the message destroys the object it is addressed to.
    pub is_destructor: bool,
    /// Interface of the object that a `NewId` argument creates, where the
    /// message fixes it.
    pub child_interface: Option<&'static Interface>,
}

/// Description of an interface: a named, versioned family of requests and
/// events.
#[derive(Debug)]
pub struct Interface {
    pub name: &'static str,
    pub version: u32,
    pub requests: &'static [MessageDesc],
    pub events: &'static [MessageDesc],
}

/// Tells whether two byte strings are equal.
pub fn bytes_eq(a: &[u8], b: &[u8]) -> (r: bool)
    ensures
        r == (a@ == b@),
{
    if a.len() != b.len() {
        return false;
    }
    let mut i: usize = 0;
    while i < a.len()
        invariant
            0 <= i <= a@.len(),
            a@.len() == b@.len(),
            forall|j: int| 0 <= j < i ==> a@[j] == b@[j],
        decreases a@.len() - i,
    {
        if a[i] != b[i] {
            return false;
        }
        i += 1;
    }
    assert(a@ =~= b@);
    true
}

/// Tells whether two strings hold the same text, by comparing their
/// bytes: a text is determined by its encoding.
fn str_eq(a: &str, b: &str) -> (r: bool)
    ensures
        r == (a@ == b@),
{
    proof {
        vstd::utf8::encode_utf8_decode_utf8(a@);
        vstd::utf8::encode_utf8_decode_utf8(b@);
    }
    bytes_eq(a.as_bytes(), b.as_bytes())
}

/// Identity of interfaces: two descriptors stand for the same interface when
/// they bear the same name, whatever else they hold.
pub open spec fn same_interface_spec(a: &Interface, b: &Interface) -> bool {
    a.name@ == b.name@
}

/// Tells whether two descriptors stand for the same interface.
pub fn same_interface(a: &'static Interface, b: &'static Interface) -> (r: bool)
    ensures
        r == same_interface_spec(a, b),
{
    str_eq(a.name, b.name)
}

} // verus!
