use vstd::prelude::*;

verus! {

/// The parts of a parsed source file that extraction looks at. Nodes of any
/// other kind appear as `Other`, with their children in source order.
pub enum Node {
    /// A function; `name` is absent for anonymous functions.
    Function { name: Option<String>, body: Vec<Node> },
    /// One declarator of a variable declaration; `name` is absent where the
    /// pattern is not a plain identifier.
    VariableDeclarator { name: Option<String>, init: Option<Box<Node>> },
    Call { callee: Box<Node>, arguments: Vec<Node> },
    Await(Box<Node>),
    StringLiteral(String),
    Identifier(String),
    /// `object.property`, with a property written as a plain name.
    StaticMember { object: Box<Node>, property: String },
    /// An object literal; its properties, and any other entries, in order.
    Object(Vec<Node>),
    /// `key: value` in an object literal; `key` is absent where it is not a
    /// plain name.
    Property { key: Option<String>, value: Box<Node> },
    Other(Vec<Node>),
}

/// Whether `name` is one of the two functions that create a translator.
pub open spec fn is_hook_name(name: Seq<char>) -> bool {
    name == "useTranslations"@ || name == "getTranslations"@
}

/// Whether the node is a call of a translation hook.
pub open spec fn is_hook_call(n: Node) -> bool {
    match n {
        Node::Call { callee, .. } => match *callee {
            Node::Identifier(h) => is_hook_name(h@),
            _ => false,
        },
        _ => false,
    }
}

/// Whether no node of the tree is a call of a translation hook.
pub open spec fn uses_no_hook(n: Node) -> bool
    decreases n, 1nat,
{
    !is_hook_call(n) && match n {
        Node::Function { body, .. } => all_use_no_hook(body@),
        Node::VariableDeclarator { init, .. } => match init {
            Some(b) => uses_no_hook(*b),
            None => true,
        },
        Node::Call { callee, arguments } => uses_no_hook(*callee) && all_use_no_hook(arguments@),
        Node::Await(e) => uses_no_hook(*e),
        Node::StaticMember { object, .. } => uses_no_hook(*object),
        Node::Object(entries) => all_use_no_hook(entries@),
        Node::Property { value, .. } => uses_no_hook(*value),
        Node::Other(children) => all_use_no_hook(children@),
        Node::StringLiteral(_) => true,
        Node::Identifier(_) => true,
    }
}

pub open spec fn all_use_no_hook(ns: Seq<Node>) -> bool
    decreases ns, 0nat,
{
    if ns.len() == 0 {
        true
    } else {
        all_use_no_hook(ns.drop_last()) && uses_no_hook(ns.last())
    }
}

/// The value of the first property named `namespace` at or after `start`
/// whose value is a string literal.
pub open spec fn namespace_property(props: Seq<Node>, start: int) -> Option<Seq<char>>
    decreases props.len() - start,
{
    if start < 0 || start >= props.len() {
        None
    } else {
        match props[start] {
            Node::Property { key: Some(k), value } => match *value {
                Node::StringLiteral(s) => if k@ == "namespace"@ {
                    Some(s@)
                } else {
                    namespace_property(props, start + 1)
                },
                _ => namespace_property(props, start + 1),
            },
            _ => namespace_property(props, start + 1),
        }
    }
}

/// The namespace that a hook call's arguments name: a string literal first
/// argument, or the `namespace` property of an object literal first argument.
pub open spec fn hook_namespace(arguments: Seq<Node>) -> Option<Seq<char>> {
    if arguments.len() == 0 {
        None
    } else {
        match arguments[0] {
            Node::StringLiteral(s) => Some(s@),
            Node::Object(props) => namespace_property(props@, 0),
            _ => None,
        }
    }
}

/// The namespace bound by a declarator's initializer: a call of a hook, or an
/// awaited call of one, whose arguments name a namespace.
pub open spec fn declared_namespace(init: Option<Box<Node>>) -> Option<Seq<char>> {
    match init {
        Some(b) => match *b {
            Node::Call { callee, arguments } => match *callee {
                Node::Identifier(h) => if is_hook_name(h@) {
                    hook_namespace(arguments@)
                } else {
                    None
                },
                _ => None,
            },
            Node::Await(inner) => match *inner {
                Node::Call { callee, arguments } => match *callee {
                    Node::Identifier(h) => if is_hook_name(h@) {
                        hook_namespace(arguments@)
                    } else {
                        None
                    },
                    _ => None,
                },
                _ => None,
            },
            _ => None,
        },
        None => None,
    }
}

/// The name a call goes through: `t` in `t(..)` and in `t.rich(..)`.
pub open spec fn callee_name(callee: Node) -> Option<Seq<char>> {
    match callee {
        Node::Identifier(n) => Some(n@),
        Node::StaticMember { object, .. } => match *object {
            Node::Identifier(n) => Some(n@),
            _ => None,
        },
        _ => None,
    }
}

/// The string literal that a call's first argument is, if it is one.
pub open spec fn literal_key(arguments: Seq<Node>) -> Option<Seq<char>> {
    if arguments.len() == 0 {
        None
    } else {
        match arguments[0] {
            Node::StringLiteral(s) => Some(s@),
            _ => None,
        }
    }
}

} // verus!
