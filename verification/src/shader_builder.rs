//! The generator: it writes the fragment shader that ray-marches the
//! distance field which the network describes.

use crate::network::{render_family, Network};
use crate::operator::{DomainType, OpFamily, PrimitiveType};
use vstd::prelude::*;

verus! {

/// What every generated shader begins with, up to the opening of `map`.
pub const HEADER: &'static str = "
        #version 430

        layout (location = 0) in vec2 vs_texcoord;
        layout (location = 0) out vec4 o_color;

        uniform vec3 u_camera_position;
        uniform vec3 u_camera_front;
        uniform uint u_shading;
        uniform float u_time;

        // The SSBO that will contain a transform for each op in the
        // graph. Note that according to the spec, there can only be
        // one array of variable size per SSBO, which is why we use
        // the convenience struct `transform` above.
        //
        // Here, we pack each transform into a single `vec4` where
        // the xyz components represent a translation and the w
        // component represents a uniform scale.
        layout (std430, binding = 0) buffer params_block
        {
            vec4 params[];
        };

        const int MAX_STEPS = 256;
        const float MAX_TRACE_DISTANCE = 64.0;
        const float MIN_HIT_DISTANCE = 0.001;

        struct ray
        {
            vec3 o;
            vec3 d;
        };

        struct result
        {
            float id;
            float total_distance;
            int total_steps;
        };

        mat3 lookat(in vec3 t, in vec3 p)
        {
            vec3 k = normalize(t - p);
            vec3 i = cross(k, vec3(0.0, 1.0, 0.0));
            vec3 j = cross(i, k);
            return mat3(i, j, k);
        }

        vec3 domain_twist(in vec3 p, float t)
        {
            float c = cos(t * p.y);
            float s = sin(t * p.y);
            mat2  m = mat2(c, -s, s, c);
            vec3  q = vec3(m * p.xz, p.y);
            return q;
        }

        float op_union(float a, float b)
        {
            return min(a, b);
        }

        float op_subtract(float a, float b)
        {
            return max(-a, b);
        }

        float op_intersect(float a, float b)
        {
            return max(a, b);
        }

        float op_smooth_min(float a, float b, float k)
        {
            float h = clamp(0.5 + 0.5 * (b - a) / k, 0.0, 1.0);
            return mix(b, a, h) - k * h * (1.0 - h);
        }

        float sdf_sphere(in vec3 p, in vec3 center, float radius)
        {
            return length(center - p) - radius;
        }

        float sdf_box(in vec3 p, in vec3 b)
        {
          vec3 d = abs(p) - b;
          return min(max(d.x, max(d.y, d.z)), 0.0) + length(max(d, 0.0));
        }

        float sdf_plane(in vec3 p, in float h)
        {
            return p.y - h;
        }

        float sdf_torus(in vec3 p, in vec2 t)
        {
            vec2 d = vec2(length(p.xz)- t.x, p.y);
            return length(d) - t.y;
        }

        vec2 map(in vec3 p)
        {
            // start of generated cod-
        ";

/// What every generated shader ends with, from the closing of `map`.
pub const FOOTER: &'static str = "
        }

        vec3 calculate_normal(in vec3 p)
        {
            const vec3 e = vec3(0.001, 0.0, 0.0);
            vec3 n = vec3(map(p + e.xyy).y - map(p - e.xyy).y,	// Gradient x
                          map(p + e.yxy).y - map(p - e.yxy).y,	// Gradient y
                          map(p + e.yyx).y - map(p - e.yyx).y); // Gradient z

            return normalize(n);
        }

        float ambient_occlusion(in vec3 p, in vec3 n)
        {
            const float attenuation = 0.5;
            float ao;
            float accum = 0.0;
            float scale = 1.0;
            for(int step = 0; step < 5; step++)
            {
                float hr = 0.01 + 0.02 * float(step * step);
                vec3 aopos = n * hr + p;

                float dist = map(aopos).y;
                ao = -(dist - hr);
                accum += ao * scale;
                scale *= attenuation;
            }
            ao = 1.0 - clamp(accum, 0.0, 1.0);

            return ao;
        }

        result raymarch(in ray r)
        {
            result res = result(-1.0, 0.0, 0);
            for (int i = 0; i < MAX_STEPS; ++i)
            {
                vec3 p = r.o + r.d * res.total_distance;
                vec2 hit_info = map(p);
                float hit_id = hit_info.x;
                float hit_dist = hit_info.y;
                res.total_distance += hit_dist;

                if (hit_dist < MIN_HIT_DISTANCE)
                {
                    res.id = hit_id;
                    break;
                }

                if(res.total_distance > MAX_TRACE_DISTANCE)
                {
                    res.total_distance = 0.0;
                    break;
                }

                res.total_steps++;
            }
            return res;
        }

        const uint SHADING_DEPTH = 0;
        const uint SHADING_STEPS = 1;
        const uint SHADING_AMBIENT_OCCLUSION = 2;
        const uint SHADING_NORMALS = 3;
        vec3 shading(in ray r, in result res)
        {
            vec3 hit = r.o + r.d * res.total_distance;
            if (u_shading == SHADING_DEPTH)
            {
                float depth = hit.z / MAX_TRACE_DISTANCE;
                return vec3(pow(depth, 0.5));
            }
            else if (u_shading == SHADING_STEPS)
            {
                float pct = float(res.total_steps) / MAX_STEPS;
                const vec3 c_a = vec3(0.0, 0.0, 1.0);
                const vec3 c_b = vec3(0.0, 1.0, 1.0);
                const vec3 c_c = vec3(1.0, 1.0, 0.0);
                const vec3 c_d = vec3(1.0, 0.0, 0.0);

                const float a = 0.00;
                const float b = 0.33;
                const float c = 0.66;
                const float d = 1.00;

                vec3 color = mix(c_a, c_b, smoothstep(a, b, pct));
                color = mix(color, c_c, smoothstep(b, c, pct));
                color = mix(color, c_d, smoothstep(c, d, pct));
                return color;
            }
            else
            {
                // calculate normals
                vec3 n = calculate_normal(hit);
                if (u_shading == SHADING_AMBIENT_OCCLUSION)
                {
                    const vec3 l = normalize(vec3(1.0, 5.0, 0.0));
                    float d = max(0.0, dot(n, l));
                    float ao = ambient_occlusion(hit, n);
                    return vec3(pow(ao, 3.0));
                }
                else
                {
                    return n * 0.5 + 0.5;
                }
            }
        }

        ray generate_ray()
        {
            // uv-coordinates in the range [-1..1]
            vec2 uv = vs_texcoord * 2.0 - 1.0;

            const float PI = 3.14159265359;
            const float fov = 50.0;
            const float fovx = PI * fov / 360.0;
            float fovy = fovx * 1.0; // iResolution.y/iResolution.x;
            float ulen = tan(fovx);
            float vlen = tan(fovy);

            const vec3 camera_up = vec3(0.0, 1.0, 0.0);
            vec2 cam_uv = uv;
            vec3 camera_right = normalize(cross(camera_up, u_camera_front));
            vec3 pixel = u_camera_position + u_camera_front + camera_right * cam_uv.x * ulen + camera_up * cam_uv.y * vlen;

            vec3 ro = u_camera_position;
            vec3 rd = normalize(pixel - u_camera_position);

            return ray(ro, rd);
        }

        void main()
        {
            ray r = generate_ray();
            result res = raymarch(r);

            const vec3 background = vec3(0.0);
            vec3 color = background;
            switch(int(res.id))
            {
                case 0:
                    color = shading(r, res);
                    break;
                case 1:
                    // Placeholder
                    break;
                case 2:
                    // Placeholder
                    break;
                    // etc...
                default:
                    color = background;
                    break;
            }

            o_color = vec4(color, 1.0);
        }";

/// The vertex shader that goes with every generated fragment shader.
pub const VERTEX_SOURCE: &'static str = "
        #version 430

        layout(location = 0) in vec2 position;
        layout(location = 1) in vec2 texcoord;
        layout (location = 0) out vec2 vs_texcoord;

        uniform mat4 u_model_matrix;
        uniform mat4 u_projection_matrix;

        void main() {
            vs_texcoord = texcoord;

            gl_Position = u_projection_matrix * u_model_matrix * vec4(position, 0.0, 1.0);
        }";

/// What follows the code of a render operator, up to the operator's name.
pub const RETURN_OPEN: &'static str = "\n\treturn vec2(0.0, ";

/// What follows the operator's name in the statement that returns.
pub const RETURN_CLOSE: &'static str = ");";

/// What every statement is indented with.
pub const INDENT: &'static str = "\t";

/// What every statement ends with.
pub const NEWLINE: &'static str = "\n";

/// How many inputs an operator of `family` must have for its code to be
/// written: a combinator two, a render operator and a domain operator other
/// than the root one, a generator and the root none.
pub open spec fn inputs_needed(family: OpFamily) -> nat {
    match family {
        OpFamily::Domain(DomainType::Root) => 0,
        OpFamily::Domain(_) => 1,
        OpFamily::Primitive(primitive) => if primitive.is_generator() {
            0
        } else if primitive.is_combinator() {
            2
        } else {
            1
        },
    }
}

/// The statements of the operator at `index`, or nothing where the operator
/// has fewer inputs than it needs. The code of the operator is filled in with
/// the name of its first input, unless it is a root or has none, and with
/// the name of its second input if it is a combinator. After the code of a
/// render operator stands the statement that returns what it computed.
pub open spec fn statement(network: Network, index: int) -> Option<Seq<char>> {
    let op = network.op(index);
    let inputs = network.graph.inputs(index);
    if inputs.len() < inputs_needed(op.family) {
        None
    } else {
        let first = if op.family == OpFamily::Domain(DomainType::Root) || inputs.len() == 0 {
            None
        } else {
            Some(network.op(inputs[0] as int).name@)
        };
        let second = if op.family is Primitive && op.family->Primitive_0.is_combinator() {
            Some(network.op(inputs[1] as int).name@)
        } else {
            None
        };
        let code = op.code(first, second);
        if op.family == render_family() {
            Some(code + RETURN_OPEN@ + op.name@ + RETURN_CLOSE@)
        } else {
            Some(code)
        }
    }
}

/// The body of `map` for the operators at `indices`, in that order: each
/// operator's statements, indented and ended by a newline. An index that
/// names no operator adds nothing. There is no body where one of the
/// operators has fewer inputs than it needs.
pub open spec fn body(network: Network, indices: Seq<usize>) -> Option<Seq<char>>
    decreases indices.len(),
{
    if indices.len() == 0 {
        Some(Seq::empty())
    } else if indices[0] >= network.graph.count() {
        body(network, indices.skip(1))
    } else {
        match (statement(network, indices[0] as int), body(network, indices.skip(1))) {
            (Some(code), Some(rest)) => Some(INDENT@ + code + NEWLINE@ + rest),
            _ => None,
        }
    }
}

/// The fragment shader for the operators at `indices`: the body of `map`
/// between the header and the footer. There is none where the network has no
/// root or there is no body.
pub open spec fn fragment_source(network: Network, indices: Seq<usize>) -> Option<Seq<char>> {
    if network.root is None {
        None
    } else {
        match body(network, indices) {
            Some(code) => Some(HEADER@ + code + FOOTER@),
            None => None,
        }
    }
}

/// Whether `source` is what `build_sources` gives for the network and the
/// order.
pub open spec fn is_build_of(source: Option<String>, network: Network, indices: Seq<usize>) -> bool {
    match fragment_source(network, indices) {
        Some(text) => source is Some && source->0@ == text,
        None => source is None,
    }
}

/// Building twice from the same network and the same order gives the same
/// text, character for character, or nothing both times.
pub proof fn lemma_build_is_deterministic(
    network: Network,
    indices: Seq<usize>,
    first: Option<String>,
    second: Option<String>,
)
    requires
        is_build_of(first, network, indices),
        is_build_of(second, network, indices),
    ensures
        first is Some <==> second is Some,
        first is Some ==> first->0@ == second->0@,
{
}

/// What a rebuild leaves for the preview to show.
pub enum Rebuild {
    /// The shader was up to date and nothing was built.
    Unchanged,
    /// The fragment shader that was built.
    Built(String),
    /// No shader could be built: the preview is to show its fallback.
    Failed,
}

/// What `rebuild` gives for a network whose shader has to be built: the
/// fragment shader for the operators that the root depends on, or a failure
/// where there is no root, a cycle leads back to the root or an operator
/// lacks an input.
pub open spec fn rebuilt(network: Network) -> Option<Seq<char>> {
    if network.root is Some && network.graph.acyclic_from(network.root->0) {
        fragment_source(network, network.graph.post_order(network.root->0))
    } else {
        None
    }
}

/// Builds the fragment shader of a network and keeps the body of `map`
/// that it built last.
pub struct ShaderBuilder {
    /// The body of `map` that was built last.
    shader_code: String,
}

impl ShaderBuilder {
    /// The body of `map` that was built last.
    pub closed spec fn code(&self) -> Seq<char> {
        self.shader_code@
    }

    /// A builder that has built nothing yet.
    pub fn new() -> (builder: ShaderBuilder)
        ensures
            builder.code() == Seq::<char>::empty(),
    {
        ShaderBuilder { shader_code: String::new() }
    }

    /// The body of `map` that was built last.
    pub fn get_code(&self) -> (code: &String)
        ensures
            code@ == self.code(),
    {
        &self.shader_code
    }

    /// The statements of the operator at `index`.
    fn statement_for(network: &Network, index: usize) -> (code: Option<String>)
        requires
            network.graph.well_formed(),
            index < network.graph.count(),
        ensures
            code is Some <==> statement(*network, index as int) is Some,
            code is Some ==> code->0@ == statement(*network, index as int)->0,
    {
        let op = &network.graph.nodes[index].data;
        let inputs = &network.graph.edges[index].inputs;
        match op.family {
            OpFamily::Domain(domain) => match domain {
                // The root of a domain has no inputs.
                DomainType::Root => Some(op.get_code(None, None)),
                // Every other domain operator has one.
                _ => {
                    if inputs.len() < 1 {
                        return None;
                    }
                    let a = inputs[0];
                    Some(op.get_code(Some(network.graph.nodes[a].data.name.as_str()), None))
                },
            },
            OpFamily::Primitive(primitive) => match primitive {
                // A generator works in the domain it is connected to, if it
                // is connected to one.
                PrimitiveType::Sphere
                | PrimitiveType::Box
                | PrimitiveType::Plane
                | PrimitiveType::Torus => {
                    if inputs.len() < 1 {
                        Some(op.get_code(None, None))
                    } else {
                        let a = inputs[0];
                        Some(op.get_code(Some(network.graph.nodes[a].data.name.as_str()), None))
                    }
                },
                // A combinator needs both of its inputs.
                PrimitiveType::Union
                | PrimitiveType::Subtraction
                | PrimitiveType::Intersection
                | PrimitiveType::SmoothMinimum => {
                    if inputs.len() < 2 {
                        return None;
                    }
                    let a = inputs[0];
                    let b = inputs[1];
                    Some(
                        op.get_code(
                            Some(network.graph.nodes[a].data.name.as_str()),
                            Some(network.graph.nodes[b].data.name.as_str()),
                        ),
                    )
                },
                // The render operator needs its input, and ends `map`.
                PrimitiveType::Render => {
                    if inputs.len() < 1 {
                        return None;
                    }
                    let a = inputs[0];
                    let mut code = op.get_code(
                        Some(network.graph.nodes[a].data.name.as_str()),
                        None,
                    );
                    code.append(RETURN_OPEN);
                    code.append(op.name.as_str());
                    code.append(RETURN_CLOSE);
                    Some(code)
                },
            },
        }
    }

    /// Writes the fragment shader for the operators at `indices`, which are
    /// to be in the order of a traversal from the root. Gives nothing where
    /// the network has no root or one of the operators has fewer inputs than
    /// it needs; the builder then keeps no code.
    pub fn build_sources(&mut self, network: &Network, indices: Vec<usize>) -> (source: Option<
        String,
    >)
        requires
            network.graph.well_formed(),
        ensures
            is_build_of(source, *network, indices@),
            final(self).code() == match fragment_source(*network, indices@) {
                Some(_) => body(*network, indices@)->0,
                None => Seq::<char>::empty(),
            },
    {
        self.shader_code = String::new();
        if network.root.is_none() {
            return None;
        }
        let mut k: usize = 0;
        proof {
            assert(indices@.skip(0) =~= indices@);
        }
        while k < indices.len()
            invariant
                network.graph.well_formed(),
                network.root is Some,
                k <= indices@.len(),
                body(*network, indices@) == match body(*network, indices@.skip(k as int)) {
                    Some(rest) => Some(self.shader_code@ + rest),
                    None => None,
                },
            decreases indices@.len() - k,
        {
            let index = indices[k];
            proof {
                assert(indices@.skip(k as int).skip(1) =~= indices@.skip(k + 1));
                assert(indices@.skip(k as int)[0] == index);
            }
            if index < network.graph.nodes.len() {
                match Self::statement_for(network, index) {
                    Some(code) => {
                        let ghost before = self.shader_code@;
                        self.shader_code.append(INDENT);
                        self.shader_code.append(code.as_str());
                        self.shader_code.append(NEWLINE);
                        proof {
                            let rest = body(*network, indices@.skip(k + 1));
                            if rest is Some {
                                assert(before + (INDENT@ + code@ + NEWLINE@ + rest->0)
                                    =~= self.shader_code@ + rest->0);
                            }
                        }
                    },
                    None => {
                        self.shader_code = String::new();
                        return None;
                    },
                }
            }
            k += 1;
        }
        proof {
            assert(indices@.skip(k as int) =~= Seq::<usize>::empty());
            assert(self.shader_code@ + Seq::<char>::empty() =~= self.shader_code@);
        }
        let mut source = String::from_str(HEADER);
        source.append(self.shader_code.as_str());
        source.append(FOOTER);
        Some(source)
    }
    /// Builds the shader again if it has to be built. A network with a root
    /// is clean afterwards, whether or not a shader came out; one without a
    /// root stays as it is. The builder keeps the body of `map` that it
    /// built, nothing where the build failed on an operator, and what it had
    /// where there was no traversal to build from.
    pub fn rebuild(&mut self, network: &mut Network) -> (outcome: Rebuild)
        requires
            old(network).well_formed(),
        ensures
            *final(network) == (Network {
                dirty: old(network).dirty && old(network).root is None,
                ..*old(network)
            }),
            !old(network).dirty ==> outcome is Unchanged && *final(self) == *old(self),
            old(network).dirty ==> match rebuilt(*old(network)) {
                Some(text) => outcome is Built && outcome->Built_0@ == text,
                None => outcome is Failed,
            },
            old(network).dirty ==> final(self).code() == if rebuilt(*old(network)) is Some {
                body(*old(network), old(network).graph.post_order(old(network).root->0))->0
            } else if old(network).root is Some && old(network).graph.acyclic_from(
                old(network).root->0,
            ) {
                Seq::<char>::empty()
            } else {
                old(self).code()
            },
    {
        if !network.dirty() {
            return Rebuild::Unchanged;
        }
        match network.root {
            Some(root) => {
                let source = if network.graph.is_acyclic_from(root) {
                    let indices = network.graph.traverse(root);
                    self.build_sources(network, indices)
                } else {
                    None
                };
                network.clean();
                match source {
                    Some(text) => Rebuild::Built(text),
                    None => Rebuild::Failed,
                }
            },
            None => Rebuild::Failed,
        }
    }
}

} // verus!
