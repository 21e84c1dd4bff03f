//! The catalogue of operators: what each family is called, what it connects
//! to, how many inputs it takes and which code it stands for.

use crate::graph::Connected;
use crate::interaction::InteractionState;
use crate::shader_string::{
    filled, text_of, ShaderString, TOKEN_INPUT_A, TOKEN_INPUT_B, TOKEN_NAME,
};
use crate::text::{
    decimal, decimal_string, is_digit, lemma_decimal_digits, lemma_decimal_injective, occurs_at,
    occurs_in,
};
use uuid::Uuid;
use vstd::prelude::*;

verus! {

/// An identifier of the `uuid` crate. Nothing inside it is read here.
#[verifier::external_type_specification]
#[verifier::external_body]
pub struct ExUuid(Uuid);

/// `Uuid::new_v4` of the `uuid` crate: an identifier made of random bits.
/// Nothing is claimed of its value.
#[verifier::external_body]
fn random_uuid() -> Uuid {
    Uuid::new_v4()
}

/// Which slots an operator has.
#[derive(Copy, Clone, Debug, PartialEq, Eq, Structural)]
pub enum Connectivity {
    InputOutput,
    Input,
    Output,
}

/// The kind of connection between two operators.
#[derive(Copy, Clone, Debug, PartialEq, Eq, Structural)]
pub enum ConnectionType {
    /// A connection between two operators of the same kind.
    Direct,
    /// A connection from a domain operator to a primitive.
    Indirect,
    /// No connection: a primitive does not feed a domain operator.
    Invalid,
}

/// The number of components of an operator's parameter.
pub const PARAMETER_CAPACITY: usize = 4;

/// The place of an operator's parameter in the parameter buffer, and what
/// its components are called. The values themselves are kept with the
/// buffer, at the slot named here.
#[derive(Copy, Clone, Debug, PartialEq, Eq)]
pub struct Parameters {
    /// The names of the components.
    names: [&'static str; 4],
    /// The slot of this parameter in the buffer that holds all of them.
    index: usize,
}

impl Parameters {
    /// The slot of this parameter in the parameter buffer.
    pub closed spec fn slot(&self) -> usize {
        self.index
    }

    /// The names of the components.
    pub closed spec fn labels(&self) -> Seq<&'static str> {
        self.names@
    }

    /// A parameter at the slot `index` whose components have the `names`.
    pub fn new(names: [&'static str; 4], index: usize) -> (params: Parameters)
        ensures
            params.slot() == index,
            params.labels() == names@,
    {
        Parameters { names, index }
    }

    /// The names of the components.
    pub fn get_names(&self) -> (names: &[&'static str; 4])
        ensures
            names@ == self.labels(),
    {
        &self.names
    }

    /// The slot of this parameter in the parameter buffer.
    pub fn get_index(&self) -> (index: usize)
        ensures
            index == self.slot(),
    {
        self.index
    }

    /// Moves the parameter to the slot `index`.
    pub fn set_index(&mut self, index: usize)
        ensures
            final(self).slot() == index,
            final(self).labels() == old(self).labels(),
    {
        self.index = index;
    }
}

impl Default for Parameters {
    fn default() -> (params: Parameters)
        ensures
            params.slot() == 0,
            params.labels() == seq!["param0", "param1", "param2", "param3"],
    {
        Parameters::new(["param0", "param1", "param2", "param3"], 0)
    }
}

/// The operators that shape the domain in which primitives are evaluated.
#[derive(Copy, Clone, Debug, PartialEq, Eq, Structural)]
pub enum DomainType {
    Root,
    Transform,
    Twist,
    Bend,
}

/// The sources of data that an operator can be driven by.
#[derive(Copy, Clone, Debug, PartialEq, Eq, Structural)]
pub enum DataType {
    Time,
    Math,
    Sin,
    Cos,
    Noise,
    Mouse,
    Audio,
}

/// The operators that make a distance field: generators of shapes,
/// combinators of two fields, and the render operator that ends the graph.
#[derive(Copy, Clone, Debug, PartialEq, Eq, Structural)]
pub enum PrimitiveType {
    Sphere,
    Box,
    Plane,
    Torus,
    Union,
    Subtraction,
    Intersection,
    SmoothMinimum,
    Render,
}

/// The ways in which a surface can be displaced.
#[derive(Copy, Clone, Debug, PartialEq, Eq, Structural)]
pub enum DisplacementType {
    Noise,
    Sin,
    Cos,
}

/// The family of an operator, which decides its slots and its code.
#[derive(Copy, Clone, Debug, PartialEq, Eq, Structural)]
pub enum OpFamily {
    Domain(DomainType),
    Primitive(PrimitiveType),
}

/// The code template of `root`.
pub const TEMPLATE_ROOT: &'static str = "\n                    vec3 p_NAME = p;\n                    float s_NAME = 1.0;";

/// The code template of `transform`.
pub const TEMPLATE_TRANSFORM: &'static str = "\n                    float s_NAME = params[INDEX].w * s_INPUT_A;\n                    vec3 t_NAME = params[INDEX].xyz;\n                    vec3 p_NAME = p_INPUT_A / s_NAME + t_NAME;";

/// The code template of `twist`.
pub const TEMPLATE_TWIST: &'static str = "\n                    float s_NAME = s_INPUT_A;\n                    vec3 p_NAME = domain_twist(p_INPUT_A, params[INDEX].x);";

/// The code template of `bend`.
pub const TEMPLATE_BEND: &'static str = "\n                    float s_NAME = s_INPUT_A;\n                    vec3 p_NAME = domain_bend(p_INPUT_A, params[INDEX].x);";

/// The code template of `sphere`.
pub const TEMPLATE_SPHERE: &'static str = "float NAME = sdf_sphere(p_INPUT_A, vec3(0.0), 1.0) * s_INPUT_A;";

/// The code template of `box`.
pub const TEMPLATE_BOX: &'static str = "float NAME = sdf_box(p_INPUT_A, vec3(1.0)) * s_INPUT_A;";

/// The code template of `plane`.
pub const TEMPLATE_PLANE: &'static str = "float NAME = sdf_plane(p_INPUT_A, -1.0) * s_INPUT_A;";

/// The code template of `torus`.
pub const TEMPLATE_TORUS: &'static str = "float NAME = sdf_torus(p_INPUT_A, vec2(1.0, 0.5)) * s_INPUT_A;";

/// The code template of `union`.
pub const TEMPLATE_UNION: &'static str = "float NAME = op_union(INPUT_A, INPUT_B);";

/// The code template of `subtraction`.
pub const TEMPLATE_SUBTRACTION: &'static str = "float NAME = op_subtract(INPUT_A, INPUT_B);";

/// The code template of `intersection`.
pub const TEMPLATE_INTERSECTION: &'static str = "float NAME = op_intersect(INPUT_A, INPUT_B);";

/// The code template of `smooth_minimum`.
pub const TEMPLATE_SMOOTH_MINIMUM: &'static str = "float NAME = op_smooth_min(INPUT_A, INPUT_B, params[INDEX].x);";

/// The code template of `render`.
pub const TEMPLATE_RENDER: &'static str = "float NAME = INPUT_A;";

impl PrimitiveType {
    /// Whether the primitive makes a shape of its own, in the domain it is
    /// given.
    pub open spec fn is_generator(&self) -> bool {
        *self is Sphere || *self is Box || *self is Plane || *self is Torus
    }

    /// Whether the primitive combines the shapes of two others.
    pub open spec fn is_combinator(&self) -> bool {
        *self is Union || *self is Subtraction || *self is Intersection || *self is SmoothMinimum
    }
}

impl OpFamily {
    /// What the family is called, in lower case.
    pub open spec fn label(&self) -> Seq<char> {
        match *self {
            OpFamily::Domain(DomainType::Root) => "root"@,
            OpFamily::Domain(DomainType::Transform) => "transform"@,
            OpFamily::Domain(DomainType::Twist) => "twist"@,
            OpFamily::Domain(DomainType::Bend) => "bend"@,
            OpFamily::Primitive(PrimitiveType::Sphere) => "sphere"@,
            OpFamily::Primitive(PrimitiveType::Box) => "box"@,
            OpFamily::Primitive(PrimitiveType::Plane) => "plane"@,
            OpFamily::Primitive(PrimitiveType::Torus) => "torus"@,
            OpFamily::Primitive(PrimitiveType::Union) => "union"@,
            OpFamily::Primitive(PrimitiveType::Subtraction) => "subtraction"@,
            OpFamily::Primitive(PrimitiveType::Intersection) => "intersection"@,
            OpFamily::Primitive(PrimitiveType::SmoothMinimum) => "smooth_minimum"@,
            OpFamily::Primitive(PrimitiveType::Render) => "render"@,
        }
    }

    /// How many inputs an operator of the family admits: none for the root
    /// of a domain, two for a combinator, one for every other.
    pub open spec fn input_capacity(&self) -> nat {
        match *self {
            OpFamily::Domain(DomainType::Root) => 0,
            OpFamily::Domain(_) => 1,
            OpFamily::Primitive(primitive) => if primitive.is_combinator() {
                2
            } else {
                1
            },
        }
    }

    /// Whether an operator of the family takes inputs.
    pub open spec fn takes_inputs(&self) -> bool {
        self.input_capacity() > 0
    }

    /// Whether an operator of the family may feed others: all but the render
    /// operator.
    pub open spec fn gives_outputs(&self) -> bool {
        *self != OpFamily::Primitive(PrimitiveType::Render)
    }

    /// The slots of an operator of the family.
    pub open spec fn connectivity(&self) -> Connectivity {
        if self.takes_inputs() && self.gives_outputs() {
            Connectivity::InputOutput
        } else if self.takes_inputs() {
            Connectivity::Input
        } else {
            Connectivity::Output
        }
    }

    /// The code template of the family.
    pub open spec fn template(&self) -> Seq<char> {
        match *self {
            OpFamily::Domain(DomainType::Root) => TEMPLATE_ROOT@,
            OpFamily::Domain(DomainType::Transform) => TEMPLATE_TRANSFORM@,
            OpFamily::Domain(DomainType::Twist) => TEMPLATE_TWIST@,
            OpFamily::Domain(DomainType::Bend) => TEMPLATE_BEND@,
            OpFamily::Primitive(PrimitiveType::Sphere) => TEMPLATE_SPHERE@,
            OpFamily::Primitive(PrimitiveType::Box) => TEMPLATE_BOX@,
            OpFamily::Primitive(PrimitiveType::Plane) => TEMPLATE_PLANE@,
            OpFamily::Primitive(PrimitiveType::Torus) => TEMPLATE_TORUS@,
            OpFamily::Primitive(PrimitiveType::Union) => TEMPLATE_UNION@,
            OpFamily::Primitive(PrimitiveType::Subtraction) => TEMPLATE_SUBTRACTION@,
            OpFamily::Primitive(PrimitiveType::Intersection) => TEMPLATE_INTERSECTION@,
            OpFamily::Primitive(PrimitiveType::SmoothMinimum) => TEMPLATE_SMOOTH_MINIMUM@,
            OpFamily::Primitive(PrimitiveType::Render) => TEMPLATE_RENDER@,
        }
    }

    /// The kind of connection from an operator of this family to one of
    /// `other`.
    pub open spec fn connection_type(&self, other: OpFamily) -> ConnectionType {
        match (*self, other) {
            (OpFamily::Domain(_), OpFamily::Domain(_)) => ConnectionType::Direct,
            (OpFamily::Domain(_), OpFamily::Primitive(_)) => ConnectionType::Indirect,
            (OpFamily::Primitive(_), OpFamily::Domain(_)) => ConnectionType::Invalid,
            (OpFamily::Primitive(_), OpFamily::Primitive(_)) => ConnectionType::Direct,
        }
    }

    /// Whether an operator of this family can feed one of `other`: a domain
    /// operator feeds domain operators and generators, a primitive feeds
    /// primitives.
    pub open spec fn connects_to(&self, other: OpFamily) -> bool {
        match (*self, other) {
            (OpFamily::Domain(_), OpFamily::Domain(_)) => true,
            (OpFamily::Domain(_), OpFamily::Primitive(primitive)) => primitive.is_generator(),
            (OpFamily::Primitive(_), OpFamily::Domain(_)) => false,
            (OpFamily::Primitive(_), OpFamily::Primitive(_)) => true,
        }
    }

    /// The names of the components of the family's parameter.
    pub open spec fn parameter_names(&self) -> Seq<&'static str> {
        match *self {
            OpFamily::Domain(DomainType::Transform) => seq![
                "translate_x",
                "translate_y",
                "translate_z",
                "scale",
            ],
            OpFamily::Domain(DomainType::Twist) => seq!["twist_x", "twist_y", "", ""],
            OpFamily::Domain(DomainType::Bend) => seq!["bend_x", "bend_y", "", ""],
            OpFamily::Primitive(PrimitiveType::SmoothMinimum) => seq!["exponent", "", "", ""],
            _ => seq!["param0", "param1", "param2", "param3"],
        }
    }

    /// The name of the family.
    pub fn to_string(&self) -> (name: &'static str)
        ensures
            name@ == self.label(),
    {
        match *self {
            OpFamily::Domain(domain) => match domain {
                DomainType::Root => "root",
                DomainType::Transform => "transform",
                DomainType::Twist => "twist",
                DomainType::Bend => "bend",
            },
            OpFamily::Primitive(primitive) => match primitive {
                PrimitiveType::Sphere => "sphere",
                PrimitiveType::Box => "box",
                PrimitiveType::Plane => "plane",
                PrimitiveType::Torus => "torus",
                PrimitiveType::Union => "union",
                PrimitiveType::Subtraction => "subtraction",
                PrimitiveType::Intersection => "intersection",
                PrimitiveType::SmoothMinimum => "smooth_minimum",
                PrimitiveType::Render => "render",
            },
        }
    }

    /// Whether operators of the family take inputs, give outputs, or both.
    pub fn get_connectivity(&self) -> (connectivity: Connectivity)
        ensures
            connectivity == self.connectivity(),
    {
        match *self {
            OpFamily::Domain(domain) => match domain {
                DomainType::Root => Connectivity::Output,
                _ => Connectivity::InputOutput,
            },
            OpFamily::Primitive(primitive) => match primitive {
                PrimitiveType::Render => Connectivity::Input,
                _ => Connectivity::InputOutput,
            },
        }
    }

    /// The largest number of operators that can feed one of the family.
    /// There is no such bound on the operators that one can feed.
    pub fn get_input_capacity(&self) -> (capacity: usize)
        ensures
            capacity == self.input_capacity(),
            capacity <= 2,
    {
        match *self {
            OpFamily::Domain(domain) => match domain {
                DomainType::Root => 0,
                _ => 1,
            },
            OpFamily::Primitive(primitive) => match primitive {
                PrimitiveType::Union
                | PrimitiveType::Subtraction
                | PrimitiveType::Intersection
                | PrimitiveType::SmoothMinimum => 2,
                _ => 1,
            },
        }
    }

    /// Whether an operator of the family takes inputs.
    pub fn has_inputs(&self) -> (yes: bool)
        ensures
            yes == self.takes_inputs(),
    {
        self.get_input_capacity() > 0
    }

    /// Whether an operator of the family may feed others.
    pub fn has_outputs(&self) -> (yes: bool)
        ensures
            yes == self.gives_outputs(),
    {
        match *self {
            OpFamily::Domain(_) => true,
            OpFamily::Primitive(primitive) => match primitive {
                PrimitiveType::Render => false,
                _ => true,
            },
        }
    }

    /// The shader code of the family, with placeholders for what differs
    /// from one operator to the next.
    pub fn get_code_template(&self) -> (template: String)
        ensures
            template@ == self.template(),
    {
        match *self {
            OpFamily::Domain(domain) => match domain {
                DomainType::Root => String::from_str(TEMPLATE_ROOT),
                DomainType::Transform => String::from_str(TEMPLATE_TRANSFORM),
                DomainType::Twist => String::from_str(TEMPLATE_TWIST),
                DomainType::Bend => String::from_str(TEMPLATE_BEND),
            },
            OpFamily::Primitive(primitive) => match primitive {
                PrimitiveType::Sphere => String::from_str(TEMPLATE_SPHERE),
                PrimitiveType::Box => String::from_str(TEMPLATE_BOX),
                PrimitiveType::Plane => String::from_str(TEMPLATE_PLANE),
                PrimitiveType::Torus => String::from_str(TEMPLATE_TORUS),
                PrimitiveType::Union => String::from_str(TEMPLATE_UNION),
                PrimitiveType::Subtraction => String::from_str(TEMPLATE_SUBTRACTION),
                PrimitiveType::Intersection => String::from_str(TEMPLATE_INTERSECTION),
                PrimitiveType::SmoothMinimum => String::from_str(TEMPLATE_SMOOTH_MINIMUM),
                PrimitiveType::Render => String::from_str(TEMPLATE_RENDER),
            },
        }
    }

    /// Whether an operator of this family can feed one of `other`.
    pub fn can_connect_to(&self, other: OpFamily) -> (yes: bool)
        ensures
            yes == self.connects_to(other),
    {
        match *self {
            OpFamily::Domain(_) => match other {
                OpFamily::Domain(_) => true,
                OpFamily::Primitive(other_primitive) => match other_primitive {
                    PrimitiveType::Sphere
                    | PrimitiveType::Box
                    | PrimitiveType::Plane
                    | PrimitiveType::Torus => true,
                    _ => false,
                },
            },
            OpFamily::Primitive(_) => match other {
                OpFamily::Domain(_) => false,
                OpFamily::Primitive(_) => true,
            },
        }
    }

    /// The kind of connection from an operator of this family to one of
    /// `other`.
    pub fn get_connection_type(&self, other: OpFamily) -> (kind: ConnectionType)
        ensures
            kind == self.connection_type(other),
    {
        match *self {
            OpFamily::Domain(_) => match other {
                OpFamily::Domain(_) => ConnectionType::Direct,
                OpFamily::Primitive(_) => ConnectionType::Indirect,
            },
            OpFamily::Primitive(_) => match other {
                OpFamily::Domain(_) => ConnectionType::Invalid,
                OpFamily::Primitive(_) => ConnectionType::Direct,
            },
        }
    }

    /// The parameter of a new operator of the family: the names of its
    /// components, at slot 0.
    pub fn get_default_params(&self) -> (params: Parameters)
        ensures
            params.slot() == 0,
            params.labels() == self.parameter_names(),
    {
        match *self {
            OpFamily::Domain(domain) => match domain {
                DomainType::Transform => Parameters::new(
                    ["translate_x", "translate_y", "translate_z", "scale"],
                    0,
                ),
                DomainType::Twist => Parameters::new(["twist_x", "twist_y", "", ""], 0),
                DomainType::Bend => Parameters::new(["bend_x", "bend_y", "", ""], 0),
                _ => Parameters::default(),
            },
            OpFamily::Primitive(primitive) => match primitive {
                PrimitiveType::SmoothMinimum => Parameters::new(["exponent", "", "", ""], 0),
                _ => Parameters::default(),
            },
        }
    }
}

/// The name of the operator of `family` that was made with the number
/// `serial`: the family's name, an underscore and the numeral.
pub open spec fn op_name(family: OpFamily, serial: nat) -> Seq<char> {
    family.label() + seq!['_'] + decimal(serial)
}

/// Two operator names are the same only where they were made with the same
/// number.
pub proof fn lemma_op_name_serial(f1: OpFamily, c1: nat, f2: OpFamily, c2: nat)
    requires
        op_name(f1, c1) == op_name(f2, c2),
    ensures
        c1 == c2,
{
    let d1 = decimal(c1);
    let d2 = decimal(c2);
    let s1 = op_name(f1, c1);
    let s2 = op_name(f2, c2);
    let len = s1.len() as int;
    lemma_decimal_digits(c1);
    lemma_decimal_digits(c2);
    assert(!is_digit('_'));
    if d1.len() < d2.len() {
        let at = len - d1.len() - 1;
        assert(s1[at] == '_');
        assert(s2[at] == d2[at - (len - d2.len())]);
    } else if d2.len() < d1.len() {
        let at = len - d2.len() - 1;
        assert(s2[at] == '_');
        assert(s1[at] == d1[at - (len - d1.len())]);
    } else {
        assert(d1 =~= s1.subrange(len - d1.len(), len));
        assert(d2 =~= s2.subrange(len - d2.len(), len));
        lemma_decimal_injective(c1, c2);
    }
}

/// The template of every family names the operator. The template of a
/// family that takes inputs names the first input, and that of a family that
/// takes two names the second one as well.
pub proof fn lemma_template_placeholders(family: OpFamily)
    ensures
        occurs_in(family.template(), TOKEN_NAME@),
        family.input_capacity() >= 1 ==> occurs_in(family.template(), TOKEN_INPUT_A@),
        family.input_capacity() == 2 ==> occurs_in(family.template(), TOKEN_INPUT_B@),
{
    reveal_strlit("NAME");
    reveal_strlit("INPUT_A");
    reveal_strlit("INPUT_B");
    match family {
        OpFamily::Domain(DomainType::Root) => {
            reveal_strlit("\n                    vec3 p_NAME = p;\n                    float s_NAME = 1.0;");
            assert(occurs_at(TEMPLATE_ROOT@, 28, TOKEN_NAME@)) by {
                assert(TEMPLATE_ROOT@.subrange(28, 32) =~= TOKEN_NAME@);
            }
        },
        OpFamily::Domain(DomainType::Transform) => {
            reveal_strlit("\n                    float s_NAME = params[INDEX].w * s_INPUT_A;\n                    vec3 t_NAME = params[INDEX].xyz;\n                    vec3 p_NAME = p_INPUT_A / s_NAME + t_NAME;");
            assert(occurs_at(TEMPLATE_TRANSFORM@, 29, TOKEN_NAME@)) by {
                assert(TEMPLATE_TRANSFORM@.subrange(29, 33) =~= TOKEN_NAME@);
            }
            assert(occurs_at(TEMPLATE_TRANSFORM@, 56, TOKEN_INPUT_A@)) by {
                assert(TEMPLATE_TRANSFORM@.subrange(56, 63) =~= TOKEN_INPUT_A@);
            }
        },
        OpFamily::Domain(DomainType::Twist) => {
            reveal_strlit("\n                    float s_NAME = s_INPUT_A;\n                    vec3 p_NAME = domain_twist(p_INPUT_A, params[INDEX].x);");
            assert(occurs_at(TEMPLATE_TWIST@, 29, TOKEN_NAME@)) by {
                assert(TEMPLATE_TWIST@.subrange(29, 33) =~= TOKEN_NAME@);
            }
            assert(occurs_at(TEMPLATE_TWIST@, 38, TOKEN_INPUT_A@)) by {
                assert(TEMPLATE_TWIST@.subrange(38, 45) =~= TOKEN_INPUT_A@);
            }
        },
        OpFamily::Domain(DomainType::Bend) => {
            reveal_strlit("\n                    float s_NAME = s_INPUT_A;\n                    vec3 p_NAME = domain_bend(p_INPUT_A, params[INDEX].x);");
            assert(occurs_at(TEMPLATE_BEND@, 29, TOKEN_NAME@)) by {
                assert(TEMPLATE_BEND@.subrange(29, 33) =~= TOKEN_NAME@);
            }
            assert(occurs_at(TEMPLATE_BEND@, 38, TOKEN_INPUT_A@)) by {
                assert(TEMPLATE_BEND@.subrange(38, 45) =~= TOKEN_INPUT_A@);
            }
        },
        OpFamily::Primitive(PrimitiveType::Sphere) => {
            reveal_strlit("float NAME = sdf_sphere(p_INPUT_A, vec3(0.0), 1.0) * s_INPUT_A;");
            assert(occurs_at(TEMPLATE_SPHERE@, 6, TOKEN_NAME@)) by {
                assert(TEMPLATE_SPHERE@.subrange(6, 10) =~= TOKEN_NAME@);
            }
            assert(occurs_at(TEMPLATE_SPHERE@, 26, TOKEN_INPUT_A@)) by {
                assert(TEMPLATE_SPHERE@.subrange(26, 33) =~= TOKEN_INPUT_A@);
            }
        },
        OpFamily::Primitive(PrimitiveType::Box) => {
            reveal_strlit("float NAME = sdf_box(p_INPUT_A, vec3(1.0)) * s_INPUT_A;");
            assert(occurs_at(TEMPLATE_BOX@, 6, TOKEN_NAME@)) by {
                assert(TEMPLATE_BOX@.subrange(6, 10) =~= TOKEN_NAME@);
            }
            assert(occurs_at(TEMPLATE_BOX@, 23, TOKEN_INPUT_A@)) by {
                assert(TEMPLATE_BOX@.subrange(23, 30) =~= TOKEN_INPUT_A@);
            }
        },
        OpFamily::Primitive(PrimitiveType::Plane) => {
            reveal_strlit("float NAME = sdf_plane(p_INPUT_A, -1.0) * s_INPUT_A;");
            assert(occurs_at(TEMPLATE_PLANE@, 6, TOKEN_NAME@)) by {
                assert(TEMPLATE_PLANE@.subrange(6, 10) =~= TOKEN_NAME@);
            }
            assert(occurs_at(TEMPLATE_PLANE@, 25, TOKEN_INPUT_A@)) by {
                assert(TEMPLATE_PLANE@.subrange(25, 32) =~= TOKEN_INPUT_A@);
            }
        },
        OpFamily::Primitive(PrimitiveType::Torus) => {
            reveal_strlit("float NAME = sdf_torus(p_INPUT_A, vec2(1.0, 0.5)) * s_INPUT_A;");
            assert(occurs_at(TEMPLATE_TORUS@, 6, TOKEN_NAME@)) by {
                assert(TEMPLATE_TORUS@.subrange(6, 10) =~= TOKEN_NAME@);
            }
            assert(occurs_at(TEMPLATE_TORUS@, 25, TOKEN_INPUT_A@)) by {
                assert(TEMPLATE_TORUS@.subrange(25, 32) =~= TOKEN_INPUT_A@);
            }
        },
        OpFamily::Primitive(PrimitiveType::Union) => {
            reveal_strlit("float NAME = op_union(INPUT_A, INPUT_B);");
            assert(occurs_at(TEMPLATE_UNION@, 6, TOKEN_NAME@)) by {
                assert(TEMPLATE_UNION@.subrange(6, 10) =~= TOKEN_NAME@);
            }
            assert(occurs_at(TEMPLATE_UNION@, 22, TOKEN_INPUT_A@)) by {
                assert(TEMPLATE_UNION@.subrange(22, 29) =~= TOKEN_INPUT_A@);
            }
            assert(occurs_at(TEMPLATE_UNION@, 31, TOKEN_INPUT_B@)) by {
                assert(TEMPLATE_UNION@.subrange(31, 38) =~= TOKEN_INPUT_B@);
            }
        },
        OpFamily::Primitive(PrimitiveType::Subtraction) => {
            reveal_strlit("float NAME = op_subtract(INPUT_A, INPUT_B);");
            assert(occurs_at(TEMPLATE_SUBTRACTION@, 6, TOKEN_NAME@)) by {
                assert(TEMPLATE_SUBTRACTION@.subrange(6, 10) =~= TOKEN_NAME@);
            }
            assert(occurs_at(TEMPLATE_SUBTRACTION@, 25, TOKEN_INPUT_A@)) by {
                assert(TEMPLATE_SUBTRACTION@.subrange(25, 32) =~= TOKEN_INPUT_A@);
            }
            assert(occurs_at(TEMPLATE_SUBTRACTION@, 34, TOKEN_INPUT_B@)) by {
                assert(TEMPLATE_SUBTRACTION@.subrange(34, 41) =~= TOKEN_INPUT_B@);
            }
        },
        OpFamily::Primitive(PrimitiveType::Intersection) => {
            reveal_strlit("float NAME = op_intersect(INPUT_A, INPUT_B);");
            assert(occurs_at(TEMPLATE_INTERSECTION@, 6, TOKEN_NAME@)) by {
                assert(TEMPLATE_INTERSECTION@.subrange(6, 10) =~= TOKEN_NAME@);
            }
            assert(occurs_at(TEMPLATE_INTERSECTION@, 26, TOKEN_INPUT_A@)) by {
                assert(TEMPLATE_INTERSECTION@.subrange(26, 33) =~= TOKEN_INPUT_A@);
            }
            assert(occurs_at(TEMPLATE_INTERSECTION@, 35, TOKEN_INPUT_B@)) by {
                assert(TEMPLATE_INTERSECTION@.subrange(35, 42) =~= TOKEN_INPUT_B@);
            }
        },
        OpFamily::Primitive(PrimitiveType::SmoothMinimum) => {
            reveal_strlit("float NAME = op_smooth_min(INPUT_A, INPUT_B, params[INDEX].x);");
            assert(occurs_at(TEMPLATE_SMOOTH_MINIMUM@, 6, TOKEN_NAME@)) by {
                assert(TEMPLATE_SMOOTH_MINIMUM@.subrange(6, 10) =~= TOKEN_NAME@);
            }
            assert(occurs_at(TEMPLATE_SMOOTH_MINIMUM@, 27, TOKEN_INPUT_A@)) by {
                assert(TEMPLATE_SMOOTH_MINIMUM@.subrange(27, 34) =~= TOKEN_INPUT_A@);
            }
            assert(occurs_at(TEMPLATE_SMOOTH_MINIMUM@, 36, TOKEN_INPUT_B@)) by {
                assert(TEMPLATE_SMOOTH_MINIMUM@.subrange(36, 43) =~= TOKEN_INPUT_B@);
            }
        },
        OpFamily::Primitive(PrimitiveType::Render) => {
            reveal_strlit("float NAME = INPUT_A;");
            assert(occurs_at(TEMPLATE_RENDER@, 6, TOKEN_NAME@)) by {
                assert(TEMPLATE_RENDER@.subrange(6, 10) =~= TOKEN_NAME@);
            }
            assert(occurs_at(TEMPLATE_RENDER@, 13, TOKEN_INPUT_A@)) by {
                assert(TEMPLATE_RENDER@.subrange(13, 20) =~= TOKEN_INPUT_A@);
            }
        },
    }
}

/// Whether `c` is a lower-case letter.
pub open spec fn is_lower(c: char) -> bool {
    'a' <= c <= 'z'
}

/// Whether `c` may stand in a name of the shading language, as far as the
/// names of operators go: a lower-case letter, a digit or an underscore.
pub open spec fn is_name_char(c: char) -> bool {
    is_lower(c) || is_digit(c) || c == '_'
}

/// The name of a family begins with a letter and holds letters and
/// underscores only.
pub proof fn lemma_label_is_word(family: OpFamily)
    ensures
        family.label().len() > 0,
        is_lower(family.label()[0]),
        forall|i: int|
            0 <= i < family.label().len() ==> is_lower(#[trigger] family.label()[i])
                || family.label()[i] == '_',
{
    reveal_strlit("root");
    reveal_strlit("transform");
    reveal_strlit("twist");
    reveal_strlit("bend");
    reveal_strlit("sphere");
    reveal_strlit("box");
    reveal_strlit("plane");
    reveal_strlit("torus");
    reveal_strlit("union");
    reveal_strlit("subtraction");
    reveal_strlit("intersection");
    reveal_strlit("smooth_minimum");
    reveal_strlit("render");
}

/// The name of an operator can stand for a variable in the shader: it begins
/// with a letter and holds lower-case letters, digits and underscores only.
pub proof fn lemma_op_name_is_identifier(family: OpFamily, serial: nat)
    ensures
        op_name(family, serial).len() > 0,
        is_lower(op_name(family, serial)[0]),
        forall|i: int|
            0 <= i < op_name(family, serial).len() ==> is_name_char(
                #[trigger] op_name(family, serial)[i],
            ),
{
    lemma_label_is_word(family);
    lemma_decimal_digits(serial);
    let label = family.label();
    let name = op_name(family, serial);
    assert forall|i: int| 0 <= i < name.len() implies is_name_char(#[trigger] name[i]) by {
        if i < label.len() {
            assert(name[i] == label[i]);
        } else if i == label.len() {
            assert(name[i] == '_');
        } else {
            assert(name[i] == decimal(serial)[i - label.len() - 1]);
        }
    }
    assert(name[0] == label[0]);
}

/// One operator of the network.
pub struct Op {
    /// The number of operators currently connected to this one's input slot.
    pub active_inputs: usize,
    /// How the pointer currently relates to the operator.
    pub state: InteractionState,
    /// An identifier that no two operators share.
    pub uuid: Uuid,
    /// The name of the operator as it appears in the shader, such as
    /// `sphere_0`.
    pub name: String,
    pub family: OpFamily,
    /// The operator's parameter, which the shader may or may not use.
    pub params: Parameters,
}

impl Op {
    /// The code of the operator: its family's template, filled in with the
    /// operator's name, its parameter slot and the names given for its inputs.
    pub open spec fn code(&self, input_a: Option<Seq<char>>, input_b: Option<Seq<char>>) -> Seq<
        char,
    > {
        filled(self.family.template(), self.name@, Some(self.params.slot()), input_a, input_b)
    }

    /// A new, unconnected operator of `family`, named after the family and
    /// `serial`.
    pub fn new(family: OpFamily, serial: usize) -> (op: Op)
        ensures
            op.active_inputs == 0,
            op.state == InteractionState::Deselected,
            op.name@ == op_name(family, serial as nat),
            op.family == family,
            op.params.slot() == 0,
            op.params.labels() == family.parameter_names(),
    {
        let mut name = String::from_str(family.to_string());
        name.append("_");
        let numeral = decimal_string(serial);
        name.append(numeral.as_str());
        proof {
            reveal_strlit("_");
            assert("_"@ =~= seq!['_']);
        }
        Op {
            active_inputs: 0,
            state: InteractionState::Deselected,
            uuid: random_uuid(),
            name,
            family,
            params: family.get_default_params(),
        }
    }

    /// The code of the operator, with `input_a` and `input_b` as the names
    /// of its inputs. A placeholder for an input that is not given stays.
    pub fn get_code(&self, input_a: Option<&str>, input_b: Option<&str>) -> (code: String)
        ensures
            code@ == self.code(text_of(input_a), text_of(input_b)),
    {
        let template = self.family.get_code_template();
        ShaderString::new(
            template,
            self.name.as_str(),
            Some(self.params.get_index()),
            input_a,
            input_b,
        ).to_string()
    }

    /// The operator's parameter.
    pub fn get_params(&self) -> (params: &Parameters)
        ensures
            *params == self.params,
    {
        &self.params
    }

    /// Mutable access to the operator's parameter.
    pub fn get_params_mut(&mut self) -> (params: &mut Parameters)
        ensures
            *params == old(self).params,
            *final(self) == (Op { params: *final(params), ..*old(self) }),
    {
        &mut self.params
    }
}

impl Connected for Op {
    open spec fn input_capacity(&self) -> nat {
        self.family.input_capacity()
    }

    open spec fn accepts_outputs(&self) -> bool {
        self.family.gives_outputs()
    }

    open spec fn active_inputs(&self) -> nat {
        self.active_inputs as nat
    }

    open spec fn with_active_inputs(&self, count: usize) -> Op {
        Op { active_inputs: count, ..*self }
    }

    proof fn active_inputs_laws(&self, a: usize, b: usize) {
    }

    fn has_inputs(&self) -> (b: bool) {
        self.family.has_inputs()
    }

    fn has_outputs(&self) -> (b: bool) {
        self.family.has_outputs()
    }

    fn get_number_of_available_inputs(&self) -> (free: usize) {
        self.family.get_input_capacity() - self.active_inputs
    }

    fn update_active_inputs_count(&mut self, count: usize) {
        self.active_inputs = count;
    }

    fn on_connect(&mut self) {
        self.active_inputs += 1;
    }

    fn on_disconnect(&mut self) {
        self.active_inputs -= 1;
    }
}

} // verus!
