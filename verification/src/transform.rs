use vstd::prelude::*;
use vstd::string::*;

verus! {

/// How an output's image is rotated and flipped (the `wl_output` transforms).
/// The rotations are counter-clockwise.
#[allow(non_camel_case_types)]
#[derive(Debug, Clone, Copy, PartialEq, Eq, Structural)]
pub enum Transform {
    Normal,
    _90,
    _180,
    _270,
    Flipped,
    Flipped90,
    Flipped180,
    Flipped270,
}

/// Own `ToString` trait: a textual form for types that have no `Display`.
pub trait ToString {
    fn to_string(&self) -> String;
}

/// Own fallible conversion, with a message as its error.
pub trait TryFrom<T>: Sized {
    /// Whether `r` is what converting `other` gives.
    spec fn converts(other: T, r: Result<Self, String>) -> bool;

    fn try_from(other: T) -> (r: Result<Self, String>)
        ensures
            Self::converts(other, r);
}

/// Rust's remainder (`%` on `i32`): it takes the sign of the dividend.
pub open spec fn rem_trunc(a: int, d: int) -> int {
    if a >= 0 {
        a % d
    } else {
        -((-a) % d)
    }
}

/// An image rotation of `angle` degrees brought into `(-360, 0]`.
pub open spec fn normalized_angle(angle: int) -> int {
    let r = rem_trunc(angle, 360);
    if r <= 0 {
        r
    } else {
        r - 360
    }
}

/// The transform that rotates the image by `angle` degrees, if `angle` is a
/// multiple of 90. A clockwise image rotation is the counter-clockwise
/// transform of the opposite angle.
pub open spec fn transform_of_angle(angle: int) -> Option<Transform> {
    let n = normalized_angle(angle);
    if n == 0 {
        Some(Transform::Normal)
    } else if n == -90 {
        Some(Transform::_90)
    } else if n == -180 {
        Some(Transform::_180)
    } else if n == -270 {
        Some(Transform::_270)
    } else {
        None
    }
}

/// The name of a transform, as compositors spell it.
pub open spec fn transform_text(t: Transform) -> Seq<char> {
    match t {
        Transform::Normal => "normal"@,
        Transform::_90 => "90"@,
        Transform::_180 => "180"@,
        Transform::_270 => "270"@,
        Transform::Flipped => "flipped"@,
        Transform::Flipped90 => "flipped-90"@,
        Transform::Flipped180 => "flipped-180"@,
        Transform::Flipped270 => "flipped-270"@,
    }
}

impl Transform {
    /// Whether the transform turns the output by a quarter turn, swapping its
    /// width and height.
    pub open spec fn spec_is_vertical(&self) -> bool {
        match self {
            Transform::_90 | Transform::_270 | Transform::Flipped90 | Transform::Flipped270 => true,
            _ => false,
        }
    }

    #[verifier::when_used_as_spec(spec_is_vertical)]
    pub fn is_vertical(&self) -> (r: bool)
        ensures
            r == self.spec_is_vertical(),
    {
        match self {
            Transform::_90 | Transform::_270 | Transform::Flipped90 | Transform::Flipped270 => true,
            _ => false,
        }
    }

    /// Maps a requested image rotation (in degrees) to its transform.
    pub fn from_angle(angle: i32) -> (r: Result<Transform, String>)
        ensures
            match r {
                Ok(t) => transform_of_angle(angle as int) == Some(t),
                Err(e) => transform_of_angle(angle as int) is None && e@ == "Invalid angle"@,
            },
    {
        let norm = angle % 360;
        let norm = if norm <= 0 {
            norm
        } else {
            norm - 360
        };
        if norm == 0 {
            Ok(Transform::Normal)
        } else if norm == -90 {
            Ok(Transform::_90)
        } else if norm == -180 {
            Ok(Transform::_180)
        } else if norm == -270 {
            Ok(Transform::_270)
        } else {
            Err(String::from_str("Invalid angle"))
        }
    }

    /// The name of the transform.
    pub fn name(&self) -> (r: String)
        ensures
            r@ == transform_text(*self),
    {
        match self {
            Transform::Normal => String::from_str("normal"),
            Transform::_90 => String::from_str("90"),
            Transform::_180 => String::from_str("180"),
            Transform::_270 => String::from_str("270"),
            Transform::Flipped => String::from_str("flipped"),
            Transform::Flipped90 => String::from_str("flipped-90"),
            Transform::Flipped180 => String::from_str("flipped-180"),
            Transform::Flipped270 => String::from_str("flipped-270"),
        }
    }
}

impl TryFrom<i32> for Transform {
    /// The transform of the angle, or the message "Invalid angle" where the
    /// angle is no multiple of a quarter turn.
    open spec fn converts(other: i32, r: Result<Transform, String>) -> bool {
        match r {
            Ok(t) => transform_of_angle(other as int) == Some(t),
            Err(e) => transform_of_angle(other as int) is None && e@ == "Invalid angle"@,
        }
    }

    /// Maps a requested image rotation to the equivalent transform (see
    /// [`Transform::from_angle`]).
    fn try_from(other: i32) -> (r: Result<Transform, String>) {
        Transform::from_angle(other)
    }
}

impl ToString for Transform {
    fn to_string(&self) -> (r: String)
        ensures
            r@ == transform_text(*self),
    {
        self.name()
    }
}

} // verus!
