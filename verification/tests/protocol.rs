use wayland_backend::protocol::{AllowNull, ArgList, Argument, ArgumentType, INLINE_ARGS, SERVER_ID_LIMIT};

#[test]
fn new_list_is_empty() {
    let list = ArgList::new();
    assert_eq!(list.len(), 0);
    assert!(list.as_slice().is_empty());
}

#[test]
fn push_appends_behind_the_arguments_held() {
    let mut list = ArgList::new();
    list.push(Argument::Uint(1));
    list.push(Argument::Str(b"two".to_vec()));
    list.push(Argument::Fd(3));
    assert_eq!(list.len(), 3);
    assert_eq!(
        list.as_slice(),
        &[Argument::Uint(1), Argument::Str(b"two".to_vec()), Argument::Fd(3)]
    );
}

#[test]
fn list_grows_past_its_inline_room() {
    let mut list = ArgList::new();
    for i in 0..(INLINE_ARGS as u32 + 3) {
        list.push(Argument::Uint(i));
    }
    assert_eq!(list.len(), INLINE_ARGS + 3);
    for (i, arg) in list.as_slice().iter().enumerate() {
        assert_eq!(arg, &Argument::Uint(i as u32));
    }
}

#[test]
fn from_vec_keeps_the_order() {
    let args = vec![
        Argument::Int(-1),
        Argument::NewId(2),
        Argument::Array(vec![3]),
        Argument::Object(4),
        Argument::Fixed(5),
    ];
    let list = ArgList::from_vec(args.clone());
    assert_eq!(list.as_slice(), args.as_slice());
    assert!(ArgList::from_vec(Vec::new()).as_slice().is_empty());
}

#[test]
fn argument_fits_its_own_kind_only() {
    let values = [
        (Argument::Int(0), ArgumentType::Int),
        (Argument::Uint(0), ArgumentType::Uint),
        (Argument::Fixed(0), ArgumentType::Fixed),
        (Argument::Str(Vec::new()), ArgumentType::Str),
        (Argument::Object(1), ArgumentType::Object(AllowNull::No)),
        (Argument::NewId(0), ArgumentType::NewId),
        (Argument::Array(Vec::new()), ArgumentType::Array),
        (Argument::Fd(0), ArgumentType::Fd),
    ];
    for (i, (value, _)) in values.iter().enumerate() {
        for (j, (_, kind)) in values.iter().enumerate() {
            assert_eq!(value.fits(*kind), i == j, "{:?} against {:?}", value, kind);
        }
    }
}

#[test]
fn null_object_fits_only_where_null_is_allowed() {
    assert!(Argument::Object(0).fits(ArgumentType::Object(AllowNull::Yes)));
    assert!(!Argument::Object(0).fits(ArgumentType::Object(AllowNull::No)));
    assert!(Argument::Object(9).fits(ArgumentType::Object(AllowNull::Yes)));
    assert!(Argument::Object(9).fits(ArgumentType::Object(AllowNull::No)));
}

#[test]
fn server_ids_start_at_the_limit() {
    assert_eq!(SERVER_ID_LIMIT, 0xff00_0000);
}
