//! The error taxonomy: every failure is a local, recoverable condition
//! surfaced to the immediate caller.  No operation of this library lets a
//! non-finite value propagate silently into later comparisons.

use crate::scalar::Scalar;
use vstd::prelude::*;

verus! {

/// Mathematical operation errors.
#[derive(Debug)]
pub enum MathError {
    /// Division by zero or a near-zero value.
    DivisionByZero { operation: String, value: Scalar },
    /// The matrix has no inverse: its determinant is approximately zero.
    MatrixNotInvertible { matrix: String },
    /// An invalid vector operation, such as normalizing a zero vector.
    InvalidVector { operation: String, vector: (Scalar, Scalar, Scalar) },
    /// Invalid transformation parameters.
    InvalidTransform { transform_type: String, reason: String },
    /// A numerical precision shortfall.
    PrecisionError { operation: String, expected: Scalar, actual: Scalar, epsilon: Scalar },
}

/// Canvas and rendering errors.
#[derive(Debug)]
pub enum GraphicsError {
    /// The canvas dimensions are invalid.
    InvalidDimensions { width: usize, height: usize, max_size: usize },
    /// The pixel coordinates fall outside the canvas.
    PixelOutOfBounds { x: usize, y: usize, width: usize, height: usize },
    /// A color channel sits outside its valid range.
    InvalidColorValue { component: String, value: Scalar },
    /// The camera configuration is invalid.
    InvalidCamera { reason: String },
    /// Ray casting failed.
    RayCastError { reason: String },
}

/// Geometry and intersection errors.
#[derive(Debug)]
pub enum GeometryError {
    /// No intersection was found where one was expected.
    NoIntersection { shape: String },
    /// Invalid shape parameters.
    InvalidShape { shape: String, parameter: String, value: String, reason: String },
    /// Too many nested transformations.
    TransformStackOverflow { depth: usize, max_depth: usize },
    /// Invalid texture coordinates.
    InvalidUvCoordinates { u: Scalar, v: Scalar, shape: String },
}

/// Material and shading errors.
#[derive(Debug)]
pub enum ShadingError {
    /// An invalid material property.
    InvalidMaterial { property: String, value: Scalar },
    /// Pattern generation failed.
    PatternError { pattern: String, reason: String },
    /// A lighting calculation failed.
    LightingError { reason: String },
    /// The reflection or refraction recursion went too deep.
    RecursionLimitExceeded { depth: usize, max_depth: usize, ray: String },
}

/// Scene and world management errors.
#[derive(Debug)]
pub enum WorldError {
    /// The scene contains no objects.
    EmptyScene,
    /// The scene contains no lights.
    NoLights,
    /// Too many objects in the scene.
    TooManyObjects { count: usize, max_count: usize },
    /// An object was not found.
    ObjectNotFound { id: String },
    /// A light was not found.
    LightNotFound { id: String },
    /// The scene hierarchy is invalid.
    InvalidHierarchy { reason: String },
}

/// File and external resource errors.
#[derive(Debug)]
pub enum IoError {
    /// A file operation failed.
    FileOperation { operation: String, filename: String, source: String },
    /// The image format is not supported.
    UnsupportedFormat { filename: String, format: String, supported_formats: Vec<String> },
    /// Parsing a file failed.
    ParseError { filename: String, line_number: Option<usize>, reason: String },
    /// A network resource was unavailable.
    NetworkError { url: String, reason: String },
}

/// Configuration and setup errors.
#[derive(Debug)]
pub enum ConfigError {
    /// A required configuration entry is missing.
    MissingConfig { key: String, file: String },
    /// A configuration value is invalid.
    InvalidConfig { key: String, value: String, expected: String },
    /// The configuration file cannot be read.
    CorruptedConfig { file: String, reason: String },
    /// The component versions do not match.
    VersionMismatch { required_version: String, found_version: String, component: String },
}

/// The main error type for all operations of this library's callers.
#[derive(Debug)]
pub enum TracerError {
    /// A mathematical operation error.
    Math(MathError),
    /// A canvas or image processing error.
    Graphics(GraphicsError),
    /// A geometry or intersection error.
    Geometry(GeometryError),
    /// A material or shading error.
    Shading(ShadingError),
    /// A scene or world management error.
    World(WorldError),
    /// A file or resource error.
    Io(IoError),
    /// A configuration error.
    Config(ConfigError),
    /// A generic error with its message.
    Other(String),
}

impl WorldError {
    /// A short description, usable in place of formatting machinery.
    pub fn message(&self) -> (r: &'static str)
        ensures
            self is EmptyScene ==> r@ == "scene contains no objects to render"@,
    {
        match self {
            WorldError::EmptyScene => "scene contains no objects to render",
            WorldError::NoLights => "scene contains no lights",
            WorldError::TooManyObjects { .. } => "too many objects in scene",
            WorldError::ObjectNotFound { .. } => "object not found",
            WorldError::LightNotFound { .. } => "light not found",
            WorldError::InvalidHierarchy { .. } => "invalid scene hierarchy",
        }
    }
}

impl IoError {
    /// A short description of the error's kind.
    pub fn message(&self) -> (r: &'static str)
        ensures
            self is FileOperation ==> r@ == "file operation failed"@,
    {
        match self {
            IoError::FileOperation { .. } => "file operation failed",
            IoError::UnsupportedFormat { .. } => "unsupported image format",
            IoError::ParseError { .. } => "file parsing failed",
            IoError::NetworkError { .. } => "network resource unavailable",
        }
    }
}

impl ConfigError {
    /// A short description of the error's kind.
    pub fn message(&self) -> (r: &'static str)
        ensures
            self is MissingConfig ==> r@ == "missing configuration entry"@,
    {
        match self {
            ConfigError::MissingConfig { .. } => "missing configuration entry",
            ConfigError::InvalidConfig { .. } => "invalid configuration value",
            ConfigError::CorruptedConfig { .. } => "corrupted configuration file",
            ConfigError::VersionMismatch { .. } => "configuration version mismatch",
        }
    }
}

} // verus!
